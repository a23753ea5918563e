//! Which body each method name of a class names.

use vstd::prelude::*;

use crate::classes::{struct_listed, ClassMethodDecl, ClassTable, ExtendBlock};
use crate::diagnostics::{blamed, noted, Diagnostic, Log, Problem};
use crate::names::Symbol;
use crate::source::{SourceId, Span};
use crate::syntax::MemberKey;
use crate::ty::StructId;

verus! {

/// A method one type declares.
pub type Method = (StructId, MemberKey);

/// The order methods are kept in: by owner, then by the key's text.
pub open spec fn method_before(a: Method, b: Method) -> bool {
    a.0.0 < b.0.0 || (a.0.0 == b.0.0 && (a.1.text.0 < b.1.text.0 || (a.1.text.0 == b.1.text.0
        && a.1.name.0 < b.1.name.0)))
}

/// The methods are in strictly ascending order.
pub open spec fn methods_ascend(rows: Seq<Method>) -> bool {
    forall|i: int, j: int|
        0 <= i < j < rows.len() ==> method_before(#[trigger] rows[i], #[trigger] rows[j])
}

fn is_before(a: Method, b: Method) -> (res: bool)
    ensures
        res == method_before(a, b),
{
    a.0.0 < b.0.0 || (a.0.0 == b.0.0 && (a.1.text.0 < b.1.text.0 || (a.1.text.0 == b.1.text.0
        && a.1.name.0 < b.1.name.0)))
}

/// Adds one method to an ascending list, unless it is there.
pub fn insert_method(rows: &mut Vec<Method>, method: Method)
    requires
        methods_ascend(old(rows)@),
    ensures
        methods_ascend(final(rows)@),
        final(rows)@.to_set() == old(rows)@.to_set().insert(method),
{
    let mut at: usize = 0;
    while at < rows.len() && is_before(rows[at], method)
        invariant
            at <= rows@.len(),
            rows@ == old(rows)@,
            forall|k: int| 0 <= k < at ==> method_before(#[trigger] rows@[k], method),
        ensures
            at <= rows@.len(),
            rows@ == old(rows)@,
            forall|k: int| 0 <= k < at ==> method_before(#[trigger] rows@[k], method),
            at < rows@.len() ==> !method_before(rows@[at as int], method),
        decreases rows@.len() - at,
    {
        at += 1;
    }
    if at < rows.len() && rows[at].0 == method.0 && rows[at].1 == method.1 {
        assert(rows@[at as int] == method);
        assert(rows@.to_set().contains(method));
        assert(rows@.to_set() =~= old(rows)@.to_set().insert(method));
    } else {
        rows.insert(at, method);
        proof {
            let before = old(rows)@;
            let after = rows@;
            assert(after == before.insert(at as int, method));
            assert forall|k: int| at <= k < before.len() implies method_before(
                method,
                #[trigger] before[k],
            ) by {
                if k > at {
                    assert(method_before(before[at as int], before[k]));
                }
            }
            assert forall|i: int, j: int| 0 <= i < j < after.len() implies method_before(
                #[trigger] after[i],
                #[trigger] after[j],
            ) by {
                if j < at {
                    assert(method_before(before[i], before[j]));
                } else if i < at && j > at {
                    assert(method_before(before[i], before[j - 1]));
                } else if i > at {
                    assert(method_before(before[i - 1], before[j - 1]));
                }
            }
            assert forall|x: Method| #[trigger] after.to_set().contains(x)
                <==> before.to_set().insert(method).contains(x) by {
                if after.contains(x) && x != method {
                    let i = choose|i: int| 0 <= i < after.len() && after[i] == x;
                    if i < at {
                        assert(before[i] == x);
                    } else {
                        assert(before[i - 1] == x);
                    }
                }
                if before.contains(x) {
                    let i = choose|i: int| 0 <= i < before.len() && before[i] == x;
                    if i < at {
                        assert(after[i] == x);
                    } else {
                        assert(after[i + 1] == x);
                    }
                }
                assert(after[at as int] == method);
            }
            assert(after.to_set() =~= before.to_set().insert(method));
        }
    }
}

/// Every `(owner, method)` pair visible on `id`: what its class record lists, and
/// its own methods where it is no class.
pub open spec fn visible_on(classes: &ClassTable, id: StructId) -> Seq<Method> {
    match classes.info(id) {
        Some(info) => info.qualified_methods@,
        None => classes.own_keys(id).map_values(|key: MemberKey| (id, key)),
    }
}

/// Every `(owner, method)` pair visible on `id`.
pub fn methods_of(classes: &ClassTable, id: StructId) -> (methods: Vec<Method>)
    ensures
        methods@ == visible_on(classes, id),
{
    match classes.find(id) {
        Some(i) => crate::lists::copied(&classes.classes[i].qualified_methods),
        None => {
            let mut methods: Vec<Method> = Vec::new();
            if let Some(row) = classes.find_own(id) {
                let mut k: usize = 0;
                while k < classes.own_methods[row].keys.len()
                    invariant
                        row < classes.own_methods@.len(),
                        k <= classes.own_methods@[row as int].keys@.len(),
                        methods@ == classes.own_methods@[row as int].keys@.take(
                            k as int,
                        ).map_values(|key: MemberKey| (id, key)),
                    decreases classes.own_methods@[row as int].keys@.len() - k,
                {
                    methods.push((id, classes.own_methods[row].keys[k]));
                    k += 1;
                    assert(methods@ =~= classes.own_methods@[row as int].keys@.take(
                        k as int,
                    ).map_values(|key: MemberKey| (id, key)));
                }
                assert(classes.own_methods@[row as int].keys@.take(k as int)
                    =~= classes.own_methods@[row as int].keys@);
            }
            assert(methods@ =~= visible_on(classes, id));
            methods
        },
    }
}

/// The methods class `own` can name: its parents' and its own.
pub open spec fn nameable(
    classes: &ClassTable,
    own: StructId,
    parents: Seq<StructId>,
    method: Method,
) -> bool {
    ||| exists|p: int|
        0 <= p < parents.len() && visible_on(classes, #[trigger] parents[p]).contains(method)
    ||| method.0 == own && classes.own_keys(own).contains(method.1)
}

/// Whether `descendant` inherits from `ancestor`. `own` is the class being
/// declared, whose ancestors are not in the table yet.
pub open spec fn derives(
    classes: &ClassTable,
    own: StructId,
    own_ancestors: Seq<StructId>,
    descendant: StructId,
    ancestor: StructId,
) -> bool {
    if descendant == own {
        own_ancestors.contains(ancestor)
    } else {
        classes.ancestors(descendant).contains(ancestor)
    }
}

/// Whether `descendant` inherits from `ancestor`.
pub fn inherits_from(
    classes: &ClassTable,
    descendant: StructId,
    ancestor: StructId,
    own: StructId,
    own_ancestors: &Vec<StructId>,
) -> (res: bool)
    ensures
        res == derives(classes, own, own_ancestors@, descendant, ancestor),
{
    if descendant == own {
        struct_listed(own_ancestors, ancestor)
    } else {
        classes.has_ancestor(descendant, ancestor)
    }
}

/// No other definition of `method` is more derived than this one.
pub open spec fn most_derived(
    classes: &ClassTable,
    own: StructId,
    own_ancestors: Seq<StructId>,
    rows: Seq<Method>,
    method: Method,
) -> bool {
    forall|i: int|
        0 <= i < rows.len() && (#[trigger] rows[i]).1 == method.1 && rows[i].0 != method.0
            ==> !derives(classes, own, own_ancestors, rows[i].0, method.0)
}

/// The owners of the most derived definitions of `key` among the first `count`
/// methods, in order.
pub open spec fn surviving(
    classes: &ClassTable,
    own: StructId,
    own_ancestors: Seq<StructId>,
    rows: Seq<Method>,
    key: MemberKey,
    count: int,
) -> Seq<StructId>
    decreases count,
{
    if count <= 0 {
        Seq::empty()
    } else {
        let before = surviving(classes, own, own_ancestors, rows, key, count - 1);
        let method = rows[count - 1];
        if method.1 == key && most_derived(classes, own, own_ancestors, rows, method) {
            before.push(method.0)
        } else {
            before
        }
    }
}

/// `bare` says, once for every key among `rows`, which owners' definitions of it
/// are most derived.
pub open spec fn bare_of(
    classes: &ClassTable,
    own: StructId,
    own_ancestors: Seq<StructId>,
    rows: Seq<Method>,
    bare: Seq<(MemberKey, Vec<StructId>)>,
) -> bool {
    &&& forall|i: int|
        0 <= i < bare.len() ==> (#[trigger] bare[i]).1@ == surviving(
            classes,
            own,
            own_ancestors,
            rows,
            bare[i].0,
            rows.len() as int,
        )
    &&& forall|i: int, j: int|
        0 <= i < j < bare.len() ==> (#[trigger] bare[i]).0 != (#[trigger] bare[j]).0
    &&& forall|k: int| 0 <= k < rows.len() ==> keyed(bare, (#[trigger] rows[k]).1)
}

/// Some row is for `key`.
pub open spec fn keyed(bare: Seq<(MemberKey, Vec<StructId>)>, key: MemberKey) -> bool {
    exists|i: int| 0 <= i < bare.len() && (#[trigger] bare[i]).0 == key
}

fn is_most_derived_row(
    classes: &ClassTable,
    own: StructId,
    own_ancestors: &Vec<StructId>,
    rows: &Vec<Method>,
    method: Method,
) -> (res: bool)
    ensures
        res == most_derived(classes, own, own_ancestors@, rows@, method),
{
    let mut i: usize = 0;
    while i < rows.len()
        invariant
            i <= rows@.len(),
            forall|k: int|
                0 <= k < i && (#[trigger] rows@[k]).1 == method.1 && rows@[k].0 != method.0
                    ==> !derives(classes, own, own_ancestors@, rows@[k].0, method.0),
        decreases rows@.len() - i,
    {
        let (owner, key) = rows[i];
        if key == method.1 && owner != method.0 {
            if inherits_from(classes, owner, method.0, own, own_ancestors) {
                assert(rows@[i as int].1 == method.1);
                return false;
            }
        }
        i += 1;
    }
    true
}

fn survivors(
    classes: &ClassTable,
    own: StructId,
    own_ancestors: &Vec<StructId>,
    rows: &Vec<Method>,
    key: MemberKey,
) -> (owners: Vec<StructId>)
    ensures
        owners@ == surviving(
            classes,
            own,
            own_ancestors@,
            rows@,
            key,
            rows@.len() as int,
        ),
{
    let mut owners: Vec<StructId> = Vec::new();
    let mut i: usize = 0;
    while i < rows.len()
        invariant
            i <= rows@.len(),
            owners@ == surviving(classes, own, own_ancestors@, rows@, key, i as int),
        decreases rows@.len() - i,
    {
        let method = rows[i];
        if method.1 == key && is_most_derived_row(classes, own, own_ancestors, rows, method) {
            owners.push(method.0);
        }
        i += 1;
    }
    owners
}

/// The methods a class can name, and which owners' definitions each bare name
/// means.
#[derive(Debug)]
pub struct ResolvedMethods {
    pub qualified: Vec<Method>,
    pub bare: Vec<(MemberKey, Vec<StructId>)>,
}

/// Records which ancestor's body each method name names.
///
/// A bare name resolves to the definition no other definition is more derived
/// than. Two unrelated parents both defining it leaves two, and the name is
/// ambiguous until someone qualifies it.
pub fn resolve_methods(
    classes: &ClassTable,
    own: StructId,
    parents: &Vec<StructId>,
    ancestors: &Vec<StructId>,
) -> (resolved: ResolvedMethods)
    ensures
        methods_ascend(resolved.qualified@),
        forall|method: Method| #[trigger]
            resolved.qualified@.contains(method) <==> nameable(classes, own, parents@, method),
        bare_of(classes, own, ancestors@, resolved.qualified@, resolved.bare@),
{
    let mut qualified: Vec<Method> = Vec::new();
    let mut p: usize = 0;
    while p < parents.len()
        invariant
            p <= parents@.len(),
            methods_ascend(qualified@),
            forall|method: Method| #[trigger]
                qualified@.to_set().contains(method) <==> exists|q: int|
                    0 <= q < p && visible_on(classes, #[trigger] parents@[q]).contains(method),
        decreases parents@.len() - p,
    {
        let visible = methods_of(classes, parents[p]);
        let ghost before = qualified@.to_set();
        let mut k: usize = 0;
        while k < visible.len()
            invariant
                k <= visible@.len(),
                methods_ascend(qualified@),
                forall|method: Method| #[trigger]
                    qualified@.to_set().contains(method) <==> before.contains(method)
                        || visible@.take(k as int).contains(method),
            decreases visible@.len() - k,
        {
            let ghost was = qualified@.to_set();
            insert_method(&mut qualified, visible[k]);
            k += 1;
            proof {
                let longer = visible@.take(k as int);
                let shorter = visible@.take(k - 1);
                assert(longer =~= shorter.push(visible@[k - 1]));
                assert forall|method: Method| #[trigger] qualified@.to_set().contains(method)
                    <==> before.contains(method) || longer.contains(method) by {
                    if shorter.contains(method) {
                        let j = choose|j: int| 0 <= j < shorter.len() && shorter[j] == method;
                        assert(longer[j] == method);
                    }
                    if longer.contains(method) && method != visible@[k - 1] {
                        let j = choose|j: int| 0 <= j < longer.len() && longer[j] == method;
                        assert(shorter[j] == method);
                    }
                    assert(longer[k - 1] == visible@[k - 1]);
                    assert(was.contains(method) <==> before.contains(method) || shorter.contains(
                        method,
                    ));
                }
            }
        }
        p += 1;
        proof {
            assert(visible@.take(k as int) =~= visible@);
            assert forall|method: Method| #[trigger] qualified@.to_set().contains(method)
                <==> exists|q: int|
                0 <= q < p && visible_on(classes, #[trigger] parents@[q]).contains(method) by {
                if before.contains(method) {
                    let q = choose|q: int|
                        0 <= q < p - 1 && visible_on(classes, #[trigger] parents@[q]).contains(
                            method,
                        );
                    assert(visible_on(classes, parents@[q]).contains(method));
                }
                if visible@.contains(method) {
                    assert(visible_on(classes, parents@[p - 1]).contains(method));
                }
                if exists|q: int|
                    0 <= q < p && visible_on(classes, #[trigger] parents@[q]).contains(method) {
                    let q = choose|q: int|
                        0 <= q < p && visible_on(classes, #[trigger] parents@[q]).contains(method);
                    if q < p - 1 {
                        assert(before.contains(method));
                    } else {
                        assert(visible@.contains(method));
                    }
                }
            }
        }
    }
    if let Some(row) = classes.find_own(own) {
        let ghost before = qualified@.to_set();
        let ghost keys = classes.own_methods@[row as int].keys@;
        let mut k: usize = 0;
        while k < classes.own_methods[row].keys.len()
            invariant
                row < classes.own_methods@.len(),
                keys == classes.own_methods@[row as int].keys@,
                k <= keys.len(),
                methods_ascend(qualified@),
                forall|method: Method| #[trigger]
                    qualified@.to_set().contains(method) <==> before.contains(method) || (method.0
                        == own && keys.take(k as int).contains(method.1)),
            decreases keys.len() - k,
        {
            let ghost was = qualified@.to_set();
            insert_method(&mut qualified, (own, classes.own_methods[row].keys[k]));
            k += 1;
            proof {
                let longer = keys.take(k as int);
                let shorter = keys.take(k - 1);
                assert forall|method: Method| #[trigger] qualified@.to_set().contains(method)
                    <==> before.contains(method) || (method.0 == own && longer.contains(
                    method.1,
                )) by {
                    if shorter.contains(method.1) {
                        let j = choose|j: int| 0 <= j < shorter.len() && shorter[j] == method.1;
                        assert(longer[j] == method.1);
                    }
                    if longer.contains(method.1) && method.1 != keys[k - 1] {
                        let j = choose|j: int| 0 <= j < longer.len() && longer[j] == method.1;
                        assert(shorter[j] == method.1);
                    }
                    assert(longer[k - 1] == keys[k - 1]);
                    assert(was.contains(method) <==> before.contains(method) || (method.0 == own
                        && shorter.contains(method.1)));
                }
            }
        }
        assert(keys.take(k as int) =~= keys);
    }
    proof {
        assert forall|method: Method| #[trigger] qualified@.contains(method) <==> nameable(
            classes,
            own,
            parents@,
            method,
        ) by {
            assert(qualified@.contains(method) == qualified@.to_set().contains(method));
        }
    }
    let mut bare: Vec<(MemberKey, Vec<StructId>)> = Vec::new();
    let mut k: usize = 0;
    while k < qualified.len()
        invariant
            k <= qualified@.len(),
            forall|i: int|
                0 <= i < bare@.len() ==> (#[trigger] bare@[i]).1@ == surviving(
                    classes,
                    own,
                    ancestors@,
                    qualified@,
                    bare@[i].0,
                    qualified@.len() as int,
                ),
            forall|i: int, j: int|
                0 <= i < j < bare@.len() ==> (#[trigger] bare@[i]).0 != (#[trigger] bare@[j]).0,
            forall|j: int| 0 <= j < k ==> keyed(bare@, (#[trigger] qualified@[j]).1),
        decreases qualified@.len() - k,
    {
        let key = qualified[k].1;
        let ghost before = bare@;
        if !has_key(&bare, key) {
            let owners = survivors(classes, own, ancestors, &qualified, key);
            bare.push((key, owners));
            assert(bare@[before.len() as int].0 == key);
        }
        k += 1;
        assert forall|j: int| 0 <= j < k implies keyed(bare@, (#[trigger] qualified@[j]).1) by {
            if j < k - 1 {
                let i = choose|i: int| 0 <= i < before.len() && (#[trigger] before[i]).0 == qualified@[j].1;
                assert(bare@[i].0 == qualified@[j].1);
            }
        }
    }
    ResolvedMethods { qualified, bare }
}

fn has_key(bare: &Vec<(MemberKey, Vec<StructId>)>, key: MemberKey) -> (res: bool)
    ensures
        res == keyed(bare@, key),
{
    let mut i: usize = 0;
    while i < bare.len()
        invariant
            i <= bare@.len(),
            forall|k: int| 0 <= k < i ==> (#[trigger] bare@[k]).0 != key,
        decreases bare@.len() - i,
    {
        if bare[i].0 == key {
            assert(bare@[i as int].0 == key);
            return true;
        }
        i += 1;
    }
    false
}

/// `origin`'s definition is what bare `key` means on a class whose bare names
/// are `bare`.
pub open spec fn bare_means(
    bare: Seq<(MemberKey, Vec<StructId>)>,
    key: MemberKey,
    origin: StructId,
) -> bool {
    exists|i: int|
        0 <= i < bare.len() && (#[trigger] bare[i]).0 == key && bare[i].1@ == seq![origin]
}

/// Whether `origin`'s copy of the member `key` names is the one bare lookup on
/// `class` finds.
pub fn is_most_derived(
    classes: &ClassTable,
    class: StructId,
    origin: StructId,
    key: MemberKey,
) -> (res: bool)
    ensures
        res == (classes.info(class) matches Some(info) && bare_means(
            info.bare_methods@,
            key,
            origin,
        )),
{
    match classes.find(class) {
        Some(row) => {
            let ghost bare = classes.classes@[row as int].bare_methods@;
            let mut i: usize = 0;
            while i < classes.classes[row].bare_methods.len()
                invariant
                    row < classes.classes@.len(),
                    classes.info(class) == Some(classes.classes@[row as int]),
                    bare == classes.classes@[row as int].bare_methods@,
                    i <= bare.len(),
                    forall|k: int|
                        0 <= k < i ==> !((#[trigger] bare[k]).0 == key && bare[k].1@ == seq![
                            origin,
                        ]),
                decreases bare.len() - i,
            {
                let owners = &classes.classes[row].bare_methods[i].1;
                if classes.classes[row].bare_methods[i].0 == key && owners.len() == 1 && owners[0]
                    == origin {
                    assert(bare[i as int].1@ =~= seq![origin]);
                    return true;
                }
                i += 1;
            }
            false
        },
        None => false,
    }
}

/// An inherited method with the key `key`.
pub open spec fn overrides_one(rows: Seq<Method>, own: StructId, key: MemberKey) -> bool {
    exists|i: int| 0 <= i < rows.len() && (#[trigger] rows[i]).0 != own && rows[i].1 == key
}

/// The first owner of an inherited method named `name`.
pub open spec fn first_namesake(rows: Seq<Method>, own: StructId, name: Symbol) -> Option<StructId>
    decreases rows.len(),
{
    if rows.len() == 0 {
        None
    } else if rows[0].0 != own && rows[0].1.name == name {
        Some(rows[0].0)
    } else {
        first_namesake(rows.drop_first(), own, name)
    }
}

/// What an `override` that overrides nothing reports: that it must match the
/// definition of the same name, when there is one, and that there is none
/// otherwise.
pub open spec fn override_problem(
    rows: Seq<Method>,
    own: StructId,
    method: ClassMethodDecl,
) -> Seq<(Span, Problem)> {
    if !method.is_override || overrides_one(rows, own, method.key) {
        Seq::empty()
    } else {
        match first_namesake(rows, own, method.key.name) {
            Some(base) => seq![
                (
                    method.name_span,
                    Problem::OverrideMustMatch { method: method.key.name, base },
                ),
            ],
            None => seq![
                (method.name_span, Problem::OverridesNoMethod { method: method.key.name }),
            ],
        }
    }
}

/// What the overrides among the first `count` methods report, in order.
pub open spec fn override_problems(
    rows: Seq<Method>,
    own: StructId,
    methods: Seq<ClassMethodDecl>,
    count: int,
) -> Seq<(Span, Problem)>
    decreases count,
{
    if count <= 0 {
        Seq::empty()
    } else {
        override_problems(rows, own, methods, count - 1) + override_problem(
            rows,
            own,
            methods[count - 1],
        )
    }
}

/// Reports an `override` that overrides nothing, and one whose parameters do not
/// match what it overrides.
pub fn check_overrides(
    methods: &Vec<ClassMethodDecl>,
    rows: &Vec<Method>,
    own: StructId,
    log: &mut Log,
)
    ensures
        final(log).source == old(log).source,
        final(log).diagnostics@ == old(log).diagnostics@ + noted(
            old(log).source,
            override_problems(rows@, own, methods@, methods@.len() as int),
        ),
{
    let mut m: usize = 0;
    assert(log.diagnostics@ =~= old(log).diagnostics@ + noted(
        old(log).source,
        Seq::<(Span, Problem)>::empty(),
    ));
    while m < methods.len()
        invariant
            m <= methods@.len(),
            log.source == old(log).source,
            log.diagnostics@ == old(log).diagnostics@ + noted(
                old(log).source,
                override_problems(rows@, own, methods@, m as int),
            ),
        decreases methods@.len() - m,
    {
        let method = methods[m];
        let ghost said = log.diagnostics@;
        if method.is_override {
            let mut matched: bool = false;
            let mut namesake: Option<StructId> = None;
            let mut i: usize = 0;
            assert(rows@.skip(0) =~= rows@);
            while i < rows.len()
                invariant
                    i <= rows@.len(),
                    matched == exists|k: int|
                        0 <= k < i && (#[trigger] rows@[k]).0 != own && rows@[k].1 == method.key,
                    match namesake {
                        Some(base) => first_namesake(rows@, own, method.key.name) == Some(base),
                        None => first_namesake(rows@, own, method.key.name) == first_namesake(
                            rows@.skip(i as int),
                            own,
                            method.key.name,
                        ),
                    },
                decreases rows@.len() - i,
            {
                let (owner, key) = rows[i];
                assert(rows@.skip(i as int).drop_first() =~= rows@.skip(i + 1));
                if owner != own && key == method.key {
                    matched = true;
                    assert(rows@[i as int].0 != own);
                }
                if namesake.is_none() && owner != own && key.name == method.key.name {
                    namesake = Some(owner);
                }
                i += 1;
            }
            if !matched {
                match namesake {
                    Some(base) => log.emit(
                        method.name_span,
                        Problem::OverrideMustMatch { method: method.key.name, base },
                    ),
                    None => log.emit(
                        method.name_span,
                        Problem::OverridesNoMethod { method: method.key.name },
                    ),
                }
            }
        }
        m += 1;
        proof {
            let before = override_problems(rows@, own, methods@, m - 1);
            let more = override_problem(rows@, own, method);
            assert(log.diagnostics@ =~= said + noted(old(log).source, more));
            assert(noted(old(log).source, before + more) =~= noted(old(log).source, before)
                + noted(old(log).source, more));
        }
    }
}

/// Whether `keys` holds `key`.
fn key_listed(keys: &Vec<MemberKey>, key: MemberKey) -> (res: bool)
    ensures
        res == keys@.contains(key),
{
    let mut i: usize = 0;
    while i < keys.len()
        invariant
            i <= keys@.len(),
            forall|k: int| 0 <= k < i ==> keys@[k] != key,
        decreases keys@.len() - i,
    {
        if keys[i] == key {
            return true;
        }
        i += 1;
    }
    false
}

/// The keys the first `count` methods of a block add to those there already, and
/// what each that is there already reports.
pub open spec fn block_adds(
    class: Symbol,
    methods: Seq<ClassMethodDecl>,
    already: Seq<MemberKey>,
    added: Seq<MemberKey>,
    count: int,
) -> (Seq<MemberKey>, Seq<(Span, Problem)>)
    decreases count,
{
    if count <= 0 {
        (added, Seq::empty())
    } else {
        let (keys, problems) = block_adds(class, methods, already, added, count - 1);
        let method = methods[count - 1];
        if already.contains(method.key) || keys.contains(method.key) {
            (
                keys,
                problems.push(
                    (
                        method.name_span,
                        Problem::MethodAlreadyDeclared { class, method: method.key.name },
                    ),
                ),
            )
        } else {
            (keys.push(method.key), problems)
        }
    }
}

/// The keys the first `count` blocks add to class `class`, what they report, and
/// the file last read.
pub open spec fn blocks_add(
    class: Symbol,
    blocks: Seq<ExtendBlock>,
    already: Seq<MemberKey>,
    source: SourceId,
    count: int,
) -> (Seq<MemberKey>, Seq<Diagnostic>, SourceId)
    decreases count,
{
    if count <= 0 {
        (Seq::empty(), Seq::empty(), source)
    } else {
        let (keys, said, at) = blocks_add(class, blocks, already, source, count - 1);
        let block = blocks[count - 1];
        if block.name == class {
            let (more, problems) = block_adds(
                class,
                block.methods@,
                already,
                keys,
                block.methods@.len() as int,
            );
            (more, said + noted(block.source, problems), block.source)
        } else {
            (keys, said, at)
        }
    }
}

/// The methods `extend Class { … }` blocks add, reporting any that restates one
/// the class already has.
///
/// A block may overload a method, which is a different parameter list, but it
/// may not restate one: that would be two bodies for one call.
pub fn extended_methods(
    class: Symbol,
    blocks: &Vec<ExtendBlock>,
    already: &Vec<MemberKey>,
    log: &mut Log,
) -> (added: Vec<MemberKey>)
    ensures
        added@ == blocks_add(
            class,
            blocks@,
            already@,
            old(log).source,
            blocks@.len() as int,
        ).0,
        final(log).diagnostics@ == old(log).diagnostics@ + blocks_add(
            class,
            blocks@,
            already@,
            old(log).source,
            blocks@.len() as int,
        ).1,
        final(log).source == blocks_add(
            class,
            blocks@,
            already@,
            old(log).source,
            blocks@.len() as int,
        ).2,
{
    let mut added: Vec<MemberKey> = Vec::new();
    let mut b: usize = 0;
    assert(log.diagnostics@ =~= old(log).diagnostics@ + Seq::<Diagnostic>::empty());
    while b < blocks.len()
        invariant
            b <= blocks@.len(),
            added@ == blocks_add(class, blocks@, already@, old(log).source, b as int).0,
            log.diagnostics@ == old(log).diagnostics@ + blocks_add(
                class,
                blocks@,
                already@,
                old(log).source,
                b as int,
            ).1,
            log.source == blocks_add(class, blocks@, already@, old(log).source, b as int).2,
        decreases blocks@.len() - b,
    {
        if blocks[b].name == class {
            let ghost keys = added@;
            let ghost said = log.diagnostics@;
            let ghost methods = blocks@[b as int].methods@;
            let ghost source = blocks@[b as int].source;
            log.source = blocks[b].source;
            let mut m: usize = 0;
            assert(log.diagnostics@ =~= said + noted(source, Seq::<(Span, Problem)>::empty()));
            while m < blocks[b].methods.len()
                invariant
                    b < blocks@.len(),
                    methods == blocks@[b as int].methods@,
                    m <= methods.len(),
                    log.source == source,
                    added@ == block_adds(class, methods, already@, keys, m as int).0,
                    log.diagnostics@ == said + noted(
                        source,
                        block_adds(class, methods, already@, keys, m as int).1,
                    ),
                decreases methods.len() - m,
            {
                let method = blocks[b].methods[m];
                let ghost before = block_adds(class, methods, already@, keys, m as int).1;
                if key_listed(already, method.key) || key_listed(&added, method.key) {
                    let problem = Problem::MethodAlreadyDeclared {
                        class,
                        method: method.key.name,
                    };
                    proof {
                        assert(noted(source, before.push((method.name_span, problem))) =~= noted(
                            source,
                            before,
                        ).push(blamed(source, method.name_span, problem)));
                    }
                    log.emit(method.name_span, problem);
                } else {
                    added.push(method.key);
                }
                m += 1;
            }
            proof {
                let problems = block_adds(class, methods, already@, keys, m as int).1;
                let earlier = blocks_add(class, blocks@, already@, old(log).source, b as int).1;
                assert(log.diagnostics@ =~= old(log).diagnostics@ + (earlier + noted(
                    source,
                    problems,
                )));
            }
        }
        b += 1;
    }
    added
}

/// On a class that declares a member itself, the bare name means the class's own
/// definition, whatever it inherits.
pub proof fn own_definition_wins(
    classes: &ClassTable,
    own: StructId,
    ancestors: Seq<StructId>,
    rows: Seq<Method>,
    key: MemberKey,
)
    requires
        rows.no_duplicates(),
        rows.contains((own, key)),
        !ancestors.contains(own),
        forall|i: int|
            0 <= i < rows.len() && (#[trigger] rows[i]).1 == key && rows[i].0 != own
                ==> ancestors.contains(rows[i].0) && !classes.ancestors(rows[i].0).contains(own),
    ensures
        surviving(classes, own, ancestors, rows, key, rows.len() as int) == seq![own],
{
    lemma_own_survives(classes, own, ancestors, rows, key, rows.len() as int);
    let at = choose|i: int| 0 <= i < rows.len() && rows[i] == (own, key);
    assert(rows[at] == (own, key));
    assert(rows.take(rows.len() as int) =~= rows);
}

proof fn lemma_own_survives(
    classes: &ClassTable,
    own: StructId,
    ancestors: Seq<StructId>,
    rows: Seq<Method>,
    key: MemberKey,
    count: int,
)
    requires
        rows.no_duplicates(),
        rows.contains((own, key)),
        !ancestors.contains(own),
        0 <= count <= rows.len(),
        forall|i: int|
            0 <= i < rows.len() && (#[trigger] rows[i]).1 == key && rows[i].0 != own
                ==> ancestors.contains(rows[i].0) && !classes.ancestors(rows[i].0).contains(own),
    ensures
        surviving(classes, own, ancestors, rows, key, count) == if rows.take(count).contains(
            (own, key),
        ) {
            seq![own]
        } else {
            Seq::empty()
        },
    decreases count,
{
    if count > 0 {
        lemma_own_survives(classes, own, ancestors, rows, key, count - 1);
        let method = rows[count - 1];
        let longer = rows.take(count);
        let shorter = rows.take(count - 1);
        assert(longer =~= shorter.push(method));
        if shorter.contains((own, key)) {
            let j = choose|j: int| 0 <= j < shorter.len() && shorter[j] == (own, key);
            assert(longer[j] == (own, key));
            assert(rows[j] == (own, key));
        }
        if longer.contains((own, key)) && method != (own, key) {
            let j = choose|j: int| 0 <= j < longer.len() && longer[j] == (own, key);
            assert(shorter[j] == (own, key));
        }
        if method == (own, key) {
            assert(longer[count - 1] == method);
            assert(most_derived(classes, own, ancestors, rows, method));
            assert(!shorter.contains((own, key))) by {
                if shorter.contains((own, key)) {
                    let j = choose|j: int| 0 <= j < shorter.len() && shorter[j] == (own, key);
                    assert(rows[j] == rows[count - 1]);
                }
            }
            assert(Seq::<StructId>::empty().push(own) =~= seq![own]);
        } else if method.1 == key {
            let at = choose|i: int| 0 <= i < rows.len() && rows[i] == (own, key);
            assert(rows[at].1 == method.1 && rows[at].0 != method.0);
            assert(derives(classes, own, ancestors, own, method.0));
            assert(!most_derived(classes, own, ancestors, rows, method));
        }
    }
}

proof fn lemma_surviving(
    classes: &ClassTable,
    own: StructId,
    own_ancestors: Seq<StructId>,
    rows: Seq<Method>,
    key: MemberKey,
    count: int,
    owner: StructId,
)
    requires
        0 <= count <= rows.len(),
    ensures
        surviving(classes, own, own_ancestors, rows, key, count).contains(owner) <==> exists|i: int|
            0 <= i < count && #[trigger] rows[i] == (owner, key) && most_derived(
                classes,
                own,
                own_ancestors,
                rows,
                (owner, key),
            ),
    decreases count,
{
    if count > 0 {
        lemma_surviving(classes, own, own_ancestors, rows, key, count - 1, owner);
        let before = surviving(classes, own, own_ancestors, rows, key, count - 1);
        let all = surviving(classes, own, own_ancestors, rows, key, count);
        if all.contains(owner) {
            let k = choose|k: int| 0 <= k < all.len() && all[k] == owner;
            if k < before.len() {
                assert(before[k] == owner);
            } else {
                assert(rows[count - 1] == (owner, key));
            }
        }
        if before.contains(owner) {
            let k = choose|k: int| 0 <= k < before.len() && before[k] == owner;
            assert(all[k] == owner);
        }
        if rows[count - 1] == (owner, key) && most_derived(
            classes,
            own,
            own_ancestors,
            rows,
            (owner, key),
        ) {
            assert(all[all.len() - 1] == owner);
        }
    }
}

/// The bare name of a member means the definitions no other definition of it overrides:
/// an owner is listed exactly if it defines the member and no other type that defines it
/// inherits from that owner.
pub proof fn a_bare_member_means_what_nothing_overrides(
    classes: &ClassTable,
    own: StructId,
    own_ancestors: Seq<StructId>,
    rows: Seq<Method>,
    key: MemberKey,
    owner: StructId,
)
    ensures
        surviving(classes, own, own_ancestors, rows, key, rows.len() as int).contains(owner) <==> {
            &&& rows.contains((owner, key))
            &&& forall|i: int|
                0 <= i < rows.len() && (#[trigger] rows[i]).1 == key && rows[i].0 != owner ==> {
                    &&& rows[i].0 == own ==> !own_ancestors.contains(owner)
                    &&& rows[i].0 != own ==> !classes.ancestors(rows[i].0).contains(owner)
                }
        },
{
    lemma_surviving(classes, own, own_ancestors, rows, key, rows.len() as int, owner);
    let all = surviving(classes, own, own_ancestors, rows, key, rows.len() as int);
    if rows.contains((owner, key)) {
        let i = choose|i: int| 0 <= i < rows.len() && rows[i] == (owner, key);
        assert(rows[i] == (owner, key));
    }
    if all.contains(owner) {
        assert forall|i: int|
            0 <= i < rows.len() && (#[trigger] rows[i]).1 == key && rows[i].0 != owner implies {
            &&& rows[i].0 == own ==> !own_ancestors.contains(owner)
            &&& rows[i].0 != own ==> !classes.ancestors(rows[i].0).contains(owner)
        } by {
            assert(!derives(classes, own, own_ancestors, rows[i].0, owner));
        }
    }
}

proof fn lemma_namesake(rows: Seq<Method>, own: StructId, name: Symbol)
    ensures
        match first_namesake(rows, own, name) {
            Some(base) => exists|i: int|
                0 <= i < rows.len() && (#[trigger] rows[i]).0 == base && base != own
                    && rows[i].1.name == name,
            None => forall|i: int|
                0 <= i < rows.len() && (#[trigger] rows[i]).0 != own ==> rows[i].1.name != name,
        },
    decreases rows.len(),
{
    if rows.len() > 0 && !(rows[0].0 != own && rows[0].1.name == name) {
        let rest = rows.drop_first();
        lemma_namesake(rest, own, name);
        match first_namesake(rest, own, name) {
            Some(base) => {
                let i = choose|i: int|
                    0 <= i < rest.len() && (#[trigger] rest[i]).0 == base && base != own
                        && rest[i].1.name == name;
                assert(rows[i + 1] == rest[i]);
            },
            None => {
                assert forall|i: int| 0 <= i < rows.len() && (#[trigger] rows[i]).0 != own implies
                    rows[i].1.name != name by {
                    if i > 0 {
                        assert(rest[i - 1] == rows[i]);
                    }
                }
            },
        }
    } else if rows.len() > 0 {
        assert(rows[0].0 != own);
    }
}

/// A method written as an override is accepted exactly if the class inherits a method of
/// the same name and parameters; a method not written so never reports. One that is
/// refused is told of an inherited definition of its name where there is one.
pub proof fn an_override_overrides_something(
    rows: Seq<Method>,
    own: StructId,
    method: ClassMethodDecl,
)
    ensures
        override_problem(rows, own, method).len() == 0 <==> (!method.is_override || exists|i: int|
            0 <= i < rows.len() && (#[trigger] rows[i]).0 != own && rows[i].1 == method.key),
        override_problem(rows, own, method).len() <= 1,
        override_problem(rows, own, method).len() == 1 ==> {
            let (span, problem) = override_problem(rows, own, method)[0];
            &&& span == method.name_span
            &&& match problem {
                Problem::OverrideMustMatch { method: name, base } => name == method.key.name
                    && exists|i: int|
                    0 <= i < rows.len() && (#[trigger] rows[i]).0 == base && base != own
                        && rows[i].1.name == name,
                Problem::OverridesNoMethod { method: name } => name == method.key.name && forall|
                    i: int,
                |
                    0 <= i < rows.len() && (#[trigger] rows[i]).0 != own ==> rows[i].1.name != name,
                _ => false,
            }
        },
{
    lemma_namesake(rows, own, method.key.name);
}

proof fn lemma_block_adds(
    class: Symbol,
    methods: Seq<ClassMethodDecl>,
    already: Seq<MemberKey>,
    added: Seq<MemberKey>,
    count: int,
)
    requires
        0 <= count <= methods.len(),
    ensures
        ({
            let (keys, problems) = block_adds(class, methods, already, added, count);
            &&& crate::hir::grew(added, keys)
            &&& keys.len() + problems.len() == added.len() + count
            &&& forall|m: int|
                0 <= m < count ==> already.contains((#[trigger] methods[m]).key) || keys.contains(
                    methods[m].key,
                )
            &&& forall|k: int|
                added.len() <= k < keys.len() ==> !already.contains(#[trigger] keys[k])
            &&& added.no_duplicates() ==> keys.no_duplicates()
        }),
    decreases count,
{
    if count > 0 {
        lemma_block_adds(class, methods, already, added, count - 1);
        let (before, problems) = block_adds(class, methods, already, added, count - 1);
        let keys = block_adds(class, methods, already, added, count).0;
        assert forall|m: int| 0 <= m < count implies already.contains((#[trigger] methods[m]).key)
            || keys.contains(methods[m].key) by {
            if m < count - 1 {
                if before.contains(methods[m].key) {
                    let k = choose|k: int| 0 <= k < before.len() && before[k] == methods[m].key;
                    assert(keys[k] == methods[m].key);
                }
            } else if !already.contains(methods[m].key) && !before.contains(methods[m].key) {
                assert(keys[keys.len() - 1] == methods[m].key);
            }
        }
    }
}

proof fn lemma_blocks_add(
    class: Symbol,
    blocks: Seq<ExtendBlock>,
    already: Seq<MemberKey>,
    source: SourceId,
    count: int,
)
    requires
        0 <= count <= blocks.len(),
    ensures
        ({
            let keys = blocks_add(class, blocks, already, source, count).0;
            &&& keys.no_duplicates()
            &&& forall|k: int| 0 <= k < keys.len() ==> !already.contains(#[trigger] keys[k])
            &&& forall|b: int, m: int|
                0 <= b < count && blocks[b].name == class && 0 <= m < blocks[b].methods@.len()
                    ==> already.contains((#[trigger] blocks[b].methods@[m]).key) || keys.contains(
                    blocks[b].methods@[m].key,
                )
        }),
    decreases count,
{
    if count > 0 {
        lemma_blocks_add(class, blocks, already, source, count - 1);
        let before = blocks_add(class, blocks, already, source, count - 1).0;
        let keys = blocks_add(class, blocks, already, source, count).0;
        let block = blocks[count - 1];
        if block.name == class {
            lemma_block_adds(
                class,
                block.methods@,
                already,
                before,
                block.methods@.len() as int,
            );
            assert forall|k: int| 0 <= k < keys.len() implies !already.contains(
                #[trigger] keys[k],
            ) by {
                if k < before.len() {
                    assert(keys[k] == before[k]);
                }
            }
            assert forall|b: int, m: int|
                0 <= b < count && blocks[b].name == class && 0 <= m
                    < blocks[b].methods@.len() implies already.contains(
                (#[trigger] blocks[b].methods@[m]).key,
            ) || keys.contains(blocks[b].methods@[m].key) by {
                if b < count - 1 && before.contains(blocks[b].methods@[m].key) {
                    let k = choose|k: int|
                        0 <= k < before.len() && before[k] == blocks[b].methods@[m].key;
                    assert(keys[k] == before[k]);
                } else if b == count - 1 {
                    assert(block.methods@[m].key == blocks[b].methods@[m].key);
                }
            }
        }
    }
}

/// Every method an `extend` block writes for a class is one of the class's own: the class
/// body declared it already, or the blocks add it, each once and none the body has.
pub proof fn extend_blocks_add_their_methods(
    class: Symbol,
    blocks: Seq<ExtendBlock>,
    already: Seq<MemberKey>,
    source: SourceId,
)
    ensures
        ({
            let keys = blocks_add(class, blocks, already, source, blocks.len() as int).0;
            &&& keys.no_duplicates()
            &&& forall|k: int| 0 <= k < keys.len() ==> !already.contains(#[trigger] keys[k])
            &&& forall|b: int, m: int|
                0 <= b < blocks.len() && blocks[b].name == class && 0 <= m
                    < blocks[b].methods@.len() ==> already.contains(
                    (#[trigger] blocks[b].methods@[m]).key,
                ) || keys.contains(blocks[b].methods@[m].key)
        }),
{
    lemma_blocks_add(class, blocks, already, source, blocks.len() as int);
}

/// A class can name its own methods under itself, and every method each of its parents
/// can name under whoever declared it; a parent that is no class lends what it declares.
pub proof fn a_class_names_its_own_and_its_parents_methods(
    classes: &ClassTable,
    own: StructId,
    parents: Seq<StructId>,
    p: int,
    k: int,
)
    ensures
        0 <= k < classes.own_keys(own).len() ==> nameable(
            classes,
            own,
            parents,
            (own, classes.own_keys(own)[k]),
        ),
        0 <= p < parents.len() && classes.info(parents[p]) is Some && 0 <= k < classes.info(
            parents[p],
        )->0.qualified_methods@.len() ==> nameable(
            classes,
            own,
            parents,
            classes.info(parents[p])->0.qualified_methods@[k],
        ),
        0 <= p < parents.len() && classes.info(parents[p]) is None && 0 <= k < classes.own_keys(
            parents[p],
        ).len() ==> nameable(
            classes,
            own,
            parents,
            (parents[p], classes.own_keys(parents[p])[k]),
        ),
{
    if 0 <= p < parents.len() {
        let seen = visible_on(classes, parents[p]);
        if classes.info(parents[p]) is None && 0 <= k < classes.own_keys(parents[p]).len() {
            assert(seen[k] == (parents[p], classes.own_keys(parents[p])[k]));
        } else if classes.info(parents[p]) is Some && 0 <= k < seen.len() {
            assert(seen[k] == classes.info(parents[p])->0.qualified_methods@[k]);
        }
    }
}

/// What an override that matches nothing is told it had to match is the first inherited
/// method of its name; there is none exactly where no inherited method has the name.
pub proof fn a_namesake_is_the_first_inherited(rows: Seq<Method>, own: StructId, name: Symbol)
    ensures
        match first_namesake(rows, own, name) {
            Some(owner) => exists|i: int|
                0 <= i < rows.len() && (#[trigger] rows[i]).0 == owner && rows[i].1.name == name
                    && owner != own && forall|j: int|
                    0 <= j < i ==> (#[trigger] rows[j]).0 == own || rows[j].1.name != name,
            None => forall|i: int|
                0 <= i < rows.len() ==> (#[trigger] rows[i]).0 == own || rows[i].1.name != name,
        },
    decreases rows.len(),
{
    if rows.len() > 0 {
        if rows[0].0 != own && rows[0].1.name == name {
            assert(rows[0].0 != own);
        } else {
            let rest = rows.drop_first();
            a_namesake_is_the_first_inherited(rest, own, name);
            match first_namesake(rest, own, name) {
                Some(owner) => {
                    let i = choose|i: int|
                        0 <= i < rest.len() && (#[trigger] rest[i]).0 == owner && rest[i].1.name
                            == name && owner != own && forall|j: int|
                            0 <= j < i ==> (#[trigger] rest[j]).0 == own || rest[j].1.name != name;
                    assert(rows[i + 1] == rest[i]);
                    assert forall|j: int| 0 <= j < i + 1 implies (#[trigger] rows[j]).0 == own
                        || rows[j].1.name != name by {
                        if j > 0 {
                            assert(rows[j] == rest[j - 1]);
                        }
                    }
                },
                None => {
                    assert forall|i: int| 0 <= i < rows.len() implies (#[trigger] rows[i]).0 == own
                        || rows[i].1.name != name by {
                        if i > 0 {
                            assert(rows[i] == rest[i - 1]);
                        }
                    }
                },
            }
        }
    }
}

} // verus!

//! Every function a program declares, in one stable order.
//!
//! A method is an ordinary function that happens to have a receiver, so it takes a
//! slot in the same list. Everything downstream of analysis sees that flat list and
//! never learns that some of it was written inside a type.

use vstd::prelude::*;

use crate::callables::{
    copies_of, specialize_callables, specialized_copy, Callable, ClassRef, FunctionDecl, Owner,
};
use crate::class_fill::{callables_of, class_callables, ClassCallable, MethodHome};
use crate::classes::ClassTable;
use crate::families::{ConstructTable, FamilyTable, MethodEntry};
use crate::imports::ImportTable;
use crate::names::Symbol;
use crate::source::SourceId;
use crate::symbol_map::SymbolMap;
use crate::ty::{StructId, Type, TypeTable};
use crate::visibility::{lookup_owned_struct, owned_struct};

verus! {

/// One method a construct-backed declaration writes.
#[derive(Clone, Copy, PartialEq, Eq, Structural, Debug)]
pub struct WrittenMethod {
    pub name: Symbol,
    /// Whether it states a requirement and so has no body.
    pub required: bool,
    /// The declaration, by its place among the program's functions.
    pub function: usize,
}

/// One construct-backed declaration, as far as its functions go.
#[derive(Debug)]
pub struct ConstructItem {
    pub name: Symbol,
    pub source: SourceId,
    pub inits: Vec<usize>,
    pub methods: Vec<WrittenMethod>,
    /// The key of the family it is backed by, where it reaches one.
    pub family: Option<Symbol>,
}

/// One item of a program, as far as its functions go.
#[allow(inconsistent_fields)]
#[derive(Debug)]
pub enum CallableItem {
    /// A free function. One that stands for a foreign symbol is no callable.
    Function { function: usize, source: SourceId, foreign: bool },
    Struct { name: Symbol, source: SourceId, methods: Vec<usize> },
    Class { name: Symbol, source: SourceId },
    Construct(ConstructItem),
    /// An item that declares no callable.
    Other,
}

/// What the enumeration reads of a program.
pub struct Declarations<'a> {
    pub types: &'a TypeTable,
    pub imports: &'a ImportTable,
    pub classes: &'a ClassTable,
    pub templates: &'a Vec<(StructId, Symbol)>,
    pub homes: &'a Vec<MethodHome>,
    pub constructs: &'a ConstructTable,
    pub families: &'a FamilyTable,
    /// The function each family method was written as, by its row.
    pub bodies: &'a Vec<usize>,
}

/// One callable before any specialization.
pub struct Registered {
    pub receiver: Option<Owner>,
    pub origin: Option<ClassRef>,
    pub initializes: Option<ClassRef>,
    pub function: usize,
    pub source: SourceId,
}

/// What a callable registers.
pub open spec fn registration(callable: Callable) -> Registered {
    Registered {
        receiver: callable.receiver,
        origin: callable.origin,
        initializes: callable.initializes,
        function: callable.function,
        source: callable.source,
    }
}

/// `callables` register exactly `wanted`, each as it was written.
pub open spec fn registers(callables: Seq<Callable>, wanted: Seq<Registered>) -> bool {
    &&& callables.len() == wanted.len()
    &&& forall|i: int|
        0 <= i < callables.len() ==> registration(#[trigger] callables[i]) == wanted[i]
            && callables[i].specialize@.len() == 0
}

proof fn lemma_registers_one(
    callables: Seq<Callable>,
    wanted: Seq<Registered>,
    callable: Callable,
    one: Registered,
)
    requires
        registers(callables, wanted),
        registration(callable) == one,
        callable.specialize@.len() == 0,
    ensures
        registers(callables.push(callable), wanted.push(one)),
{
}

fn plain(
    receiver: Option<Owner>,
    origin: Option<ClassRef>,
    initializes: Option<ClassRef>,
    function: usize,
    source: SourceId,
) -> (callable: Callable)
    ensures
        registration(callable) == (Registered { receiver, origin, initializes, function, source }),
        callable.specialize@.len() == 0,
{
    Callable { receiver, origin, specialize: Vec::new(), initializes, function, source }
}

/// The struct an item of `source` named `name` became.
pub open spec fn own_struct(decls: Declarations, source: SourceId, name: Symbol) -> Option<StructId> {
    owned_struct(decls.types.structs@, decls.imports.package(source), name)
}

/// The callables of a declaration's first `count` initializers: free functions
/// that produce the declaration, all under one name.
pub open spec fn init_callables(item: ConstructItem, id: StructId, count: int) -> Seq<Registered> {
    Seq::new(
        count as nat,
        |i: int|
            Registered {
                receiver: None,
                origin: None,
                initializes: Some(ClassRef { id, name: item.name }),
                function: item.inits@[i],
                source: item.source,
            },
    )
}

/// The callables of the first `count` methods a declaration writes. A requirement
/// has no body, so registering it would mint an implementation that does nothing.
pub open spec fn own_callables(item: ConstructItem, id: StructId, count: int) -> Seq<Registered>
    decreases count,
{
    if count <= 0 {
        Seq::empty()
    } else if item.methods@[count - 1].required {
        own_callables(item, id, count - 1)
    } else {
        own_callables(item, id, count - 1).push(
            Registered {
                receiver: Some(Owner { ty: Type::Struct(id), name: item.name }),
                origin: None,
                initializes: None,
                function: item.methods@[count - 1].function,
                source: item.source,
            },
        )
    }
}

/// Whether a declaration writes a method `name` with a body.
pub open spec fn writes_method(methods: Seq<WrittenMethod>, name: Symbol) -> bool {
    exists|i: int| 0 <= i < methods.len() && #[trigger] writes(methods[i], name)
}

/// Whether one written method is `name`, with a body.
pub open spec fn writes(method: WrittenMethod, name: Symbol) -> bool {
    method.name == name && !method.required
}

fn is_written(methods: &Vec<WrittenMethod>, name: Symbol) -> (res: bool)
    ensures
        res == writes_method(methods@, name),
{
    let mut i: usize = 0;
    while i < methods.len()
        invariant
            i <= methods@.len(),
            forall|k: int| 0 <= k < i ==> !#[trigger] writes(methods@[k], name),
        decreases methods@.len() - i,
    {
        if methods[i].name == name && !methods[i].required {
            assert(writes(methods@[i as int], name));
            return true;
        }
        i += 1;
    }
    false
}

/// Whether a declaration inherits a family's method: it has a body, and the
/// declaration writes none of its own.
pub open spec fn inherits_body(
    families: &FamilyTable,
    item: ConstructItem,
    row: (Symbol, MethodEntry),
) -> bool {
    !writes_method(item.methods@, row.0) && !families.methods@[row.1.method as int].required
}

/// The callables of the first `count` methods a declaration inherits from its
/// family, in name order, each in the file that wrote it.
pub open spec fn inherited_callables(
    families: &FamilyTable,
    bodies: Seq<usize>,
    item: ConstructItem,
    id: StructId,
    rows: Seq<(Symbol, MethodEntry)>,
    count: int,
) -> Seq<Registered>
    decreases count,
{
    if count <= 0 {
        Seq::empty()
    } else {
        let before = inherited_callables(families, bodies, item, id, rows, count - 1);
        let row = rows[count - 1];
        if inherits_body(families, item, row) {
            before.push(
                Registered {
                    receiver: Some(Owner { ty: Type::Struct(id), name: item.name }),
                    origin: None,
                    initializes: None,
                    function: bodies[row.1.method as int],
                    source: families.methods@[row.1.method as int].source,
                },
            )
        } else {
            before
        }
    }
}

/// The methods of the family a declaration is backed by.
pub open spec fn family_rows(families: &FamilyTable, family: Option<Symbol>) -> Seq<
    (Symbol, MethodEntry),
> {
    match family {
        Some(key) if families.families@.contains_key(key) => {
            families.families@[key].methods.rows@
        },
        _ => Seq::empty(),
    }
}

/// Every callable of one construct-backed declaration: its initializers, the
/// methods it writes, and the family's it does not.
pub open spec fn construct_registered(decls: Declarations, item: ConstructItem) -> Seq<Registered> {
    match own_struct(decls, item.source, item.name) {
        Some(id) if decls.constructs.info(id) is Some => {
            let rows = family_rows(decls.families, item.family);
            init_callables(item, id, item.inits@.len() as int) + own_callables(
                item,
                id,
                item.methods@.len() as int,
            ) + inherited_callables(
                decls.families,
                decls.bodies@,
                item,
                id,
                rows,
                rows.len() as int,
            )
        },
        _ => Seq::empty(),
    }
}

/// Whether the tables the enumeration reads agree with one another.
pub open spec fn declarations_wf(decls: Declarations) -> bool {
    &&& decls.types.structs@.len() <= u32::MAX
    &&& decls.families.wf()
    &&& decls.bodies@.len() == decls.families.methods@.len()
}

fn inherit_methods(
    decls: &Declarations,
    item: &ConstructItem,
    id: StructId,
    methods: &SymbolMap<MethodEntry>,
    out: &mut Vec<Callable>,
    Ghost(wanted): Ghost<Seq<Registered>>,
)
    requires
        decls.bodies@.len() == decls.families.methods@.len(),
        forall|i: int|
            0 <= i < methods.rows@.len() ==> (#[trigger] methods.rows@[i]).1.method
                < decls.families.methods@.len(),
        registers(old(out)@, wanted),
    ensures
        registers(
            final(out)@,
            wanted + inherited_callables(
                decls.families,
                decls.bodies@,
                *item,
                id,
                methods.rows@,
                methods.rows@.len() as int,
            ),
        ),
{
    let mut i: usize = 0;
    assert(wanted + inherited_callables(
        decls.families,
        decls.bodies@,
        *item,
        id,
        methods.rows@,
        0,
    ) =~= wanted);
    while i < methods.rows.len()
        invariant
            i <= methods.rows@.len(),
            decls.bodies@.len() == decls.families.methods@.len(),
            forall|k: int|
                0 <= k < methods.rows@.len() ==> (#[trigger] methods.rows@[k]).1.method
                    < decls.families.methods@.len(),
            registers(
                out@,
                wanted + inherited_callables(
                    decls.families,
                    decls.bodies@,
                    *item,
                    id,
                    methods.rows@,
                    i as int,
                ),
            ),
        decreases methods.rows@.len() - i,
    {
        let ghost so_far = inherited_callables(
            decls.families,
            decls.bodies@,
            *item,
            id,
            methods.rows@,
            i as int,
        );
        let ghost held = out@;
        let name: Symbol = methods.rows[i].0;
        let row: usize = methods.rows[i].1.method as usize;
        assert(methods.rows@[i as int].1.method < decls.families.methods@.len());
        if !is_written(&item.methods, name) && !decls.families.methods[row].required {
            let callable = plain(
                Some(Owner { ty: Type::Struct(id), name: item.name }),
                None,
                None,
                decls.bodies[row],
                decls.families.methods[row].source,
            );
            proof {
                lemma_registers_one(held, wanted + so_far, callable, registration(callable));
                assert((wanted + so_far).push(registration(callable)) =~= wanted + so_far.push(
                    registration(callable),
                ));
            }
            out.push(callable);
        }
        i += 1;
    }
}

/// Registers own and inherited functions for one construct-backed declaration.
///
/// A requirement is never registered, as a declaration's own or as inherited:
/// leaving it out is what lets conformance see the gap.
pub fn construct_callables(decls: &Declarations, item: &ConstructItem) -> (out: Vec<Callable>)
    requires
        declarations_wf(*decls),
    ensures
        registers(out@, construct_registered(*decls, *item)),
{
    let mut out: Vec<Callable> = Vec::new();
    let package = decls.imports.package_of(item.source);
    let id = match lookup_owned_struct(decls.types, package, item.name) {
        None => {
            return out;
        },
        Some(id) => id,
    };
    if decls.constructs.find(id).is_none() {
        return out;
    }
    let class = ClassRef { id, name: item.name };
    let mut i: usize = 0;
    while i < item.inits.len()
        invariant
            i <= item.inits@.len(),
            class == (ClassRef { id, name: item.name }),
            registers(out@, init_callables(*item, id, i as int)),
        decreases item.inits@.len() - i,
    {
        let ghost held = out@;
        let callable = plain(None, None, Some(class), item.inits[i], item.source);
        proof {
            lemma_registers_one(
                held,
                init_callables(*item, id, i as int),
                callable,
                registration(callable),
            );
            assert(init_callables(*item, id, i as int).push(registration(callable))
                =~= init_callables(*item, id, i + 1));
        }
        out.push(callable);
        i += 1;
    }
    let ghost first = init_callables(*item, id, item.inits@.len() as int);
    let mut k: usize = 0;
    assert(first + own_callables(*item, id, 0) =~= first);
    while k < item.methods.len()
        invariant
            k <= item.methods@.len(),
            registers(out@, first + own_callables(*item, id, k as int)),
        decreases item.methods@.len() - k,
    {
        let method = item.methods[k];
        if !method.required {
            let ghost held = out@;
            let ghost so_far = own_callables(*item, id, k as int);
            let callable = plain(
                Some(Owner { ty: Type::Struct(id), name: item.name }),
                None,
                None,
                method.function,
                item.source,
            );
            proof {
                lemma_registers_one(held, first + so_far, callable, registration(callable));
                assert((first + so_far).push(registration(callable)) =~= first + so_far.push(
                    registration(callable),
                ));
            }
            out.push(callable);
        }
        k += 1;
    }
    let ghost second = first + own_callables(*item, id, item.methods@.len() as int);
    match item.family {
        Some(key) => match decls.families.families.find(key) {
            Some(at) => {
                let ghost info = decls.families.families.rows@[at as int].1;
                proof {
                    crate::symbol_map::lemma_row(decls.families.families.rows@, at as int);
                    assert(decls.families.families@[key] == info);
                    assert(decls.families.families@.contains_key(key));
                    assert(info.wf());
                    assert forall|i: int| 0 <= i < info.methods.rows@.len() implies (
                    #[trigger] info.methods.rows@[i]).1.method < decls.families.methods@.len() by {
                        crate::symbol_map::lemma_row(info.methods.rows@, i);
                        let name = info.methods.rows@[i].0;
                        assert(info.methods@.contains_key(name));
                        assert(decls.families.families@[key].methods@[name]
                            == info.methods.rows@[i].1);
                    }
                }
                inherit_methods(
                    decls,
                    item,
                    id,
                    &decls.families.families.rows[at].1.methods,
                    &mut out,
                    Ghost(second),
                );
            },
            None => {
                assert(second + inherited_callables(
                    decls.families,
                    decls.bodies@,
                    *item,
                    id,
                    Seq::empty(),
                    0,
                ) =~= second);
            },
        },
        None => {
            assert(second + inherited_callables(
                decls.families,
                decls.bodies@,
                *item,
                id,
                Seq::empty(),
                0,
            ) =~= second);
        },
    }
    out
}

/// How a type is spelled, `otherwise` where the source gave it no name.
pub open spec fn spelled(types: &TypeTable, id: StructId, otherwise: Symbol) -> Symbol {
    match types.declared_name(id) {
        Some(name) => name,
        None => otherwise,
    }
}

/// What one callable of the class `id`, spelled `name`, registers: it runs on the
/// class itself, whoever wrote it.
pub open spec fn class_registration(
    types: &TypeTable,
    id: StructId,
    name: Symbol,
    callable: ClassCallable,
) -> Registered {
    Registered {
        receiver: Some(Owner { ty: Type::Struct(id), name }),
        origin: Some(
            ClassRef { id: callable.origin, name: spelled(types, callable.origin, name) },
        ),
        initializes: None,
        function: callable.function as usize,
        source: callable.source,
    }
}

/// Every callable of the class `name` of `source`.
pub open spec fn class_registered(decls: Declarations, source: SourceId, name: Symbol) -> Seq<
    Registered,
> {
    match own_struct(decls, source, name) {
        Some(id) => match decls.classes.info(id) {
            Some(info) => callables_of(
                decls.types,
                decls.imports,
                decls.templates@,
                decls.homes@,
                id,
                info.qualified_methods@,
                info.qualified_methods@.len() as int,
            ).map_values(|callable: ClassCallable| class_registration(decls.types, id, name, callable)),
            None => Seq::empty(),
        },
        None => Seq::empty(),
    }
}

fn callables_of_class(decls: &Declarations, source: SourceId, name: Symbol) -> (out: Vec<Callable>)
    requires
        declarations_wf(*decls),
    ensures
        registers(out@, class_registered(*decls, source, name)),
{
    let mut out: Vec<Callable> = Vec::new();
    let package = decls.imports.package_of(source);
    let id = match lookup_owned_struct(decls.types, package, name) {
        None => {
            return out;
        },
        Some(id) => id,
    };
    let found = class_callables(
        decls.types,
        decls.imports,
        decls.templates,
        decls.homes,
        decls.classes,
        id,
    );
    let ghost wanted = class_registered(*decls, source, name);
    assert(wanted.len() == found@.len());
    let mut i: usize = 0;
    assert(wanted.take(0) =~= Seq::empty());
    while i < found.len()
        invariant
            i <= found@.len(),
            wanted.len() == found@.len(),
            forall|k: int|
                0 <= k < found@.len() ==> #[trigger] wanted[k] == class_registration(
                    decls.types,
                    id,
                    name,
                    found@[k],
                ),
            registers(out@, wanted.take(i as int)),
        decreases found@.len() - i,
    {
        let one = &found[i];
        let origin = match decls.types.name_of(one.origin) {
            Some(spelling) => spelling,
            None => name,
        };
        let ghost held = out@;
        let callable = plain(
            Some(Owner { ty: Type::Struct(id), name }),
            Some(ClassRef { id: one.origin, name: origin }),
            None,
            one.function as usize,
            one.source,
        );
        proof {
            assert(wanted[i as int] == registration(callable));
            lemma_registers_one(held, wanted.take(i as int), callable, registration(callable));
            assert(wanted.take(i as int).push(registration(callable)) =~= wanted.take(i + 1));
        }
        out.push(callable);
        i += 1;
    }
    assert(wanted.take(i as int) =~= wanted);
    out
}

/// The callables of the methods of the struct `name` of `source`.
pub open spec fn struct_registered(
    decls: Declarations,
    source: SourceId,
    name: Symbol,
    methods: Seq<usize>,
) -> Seq<Registered> {
    methods.map_values(
        |function: usize|
            Registered {
                receiver: match own_struct(decls, source, name) {
                    Some(id) => Some(Owner { ty: Type::Struct(id), name }),
                    None => None,
                },
                origin: None,
                initializes: None,
                function,
                source,
            },
    )
}

fn callables_of_struct(
    decls: &Declarations,
    source: SourceId,
    name: Symbol,
    methods: &Vec<usize>,
) -> (out: Vec<Callable>)
    requires
        declarations_wf(*decls),
    ensures
        registers(out@, struct_registered(*decls, source, name, methods@)),
{
    let package = decls.imports.package_of(source);
    let receiver = match lookup_owned_struct(decls.types, package, name) {
        Some(id) => Some(Owner { ty: Type::Struct(id), name }),
        None => None,
    };
    let ghost wanted = struct_registered(*decls, source, name, methods@);
    let mut out: Vec<Callable> = Vec::new();
    let mut i: usize = 0;
    assert(wanted.take(0) =~= Seq::empty());
    while i < methods.len()
        invariant
            i <= methods@.len(),
            wanted.len() == methods@.len(),
            forall|k: int|
                0 <= k < methods@.len() ==> #[trigger] wanted[k] == (Registered {
                    receiver,
                    origin: None,
                    initializes: None,
                    function: methods@[k],
                    source,
                }),
            registers(out@, wanted.take(i as int)),
        decreases methods@.len() - i,
    {
        let ghost held = out@;
        let callable = plain(receiver, None, None, methods[i], source);
        proof {
            assert(wanted[i as int] == registration(callable));
            lemma_registers_one(held, wanted.take(i as int), callable, registration(callable));
            assert(wanted.take(i as int).push(registration(callable)) =~= wanted.take(i + 1));
        }
        out.push(callable);
        i += 1;
    }
    assert(wanted.take(i as int) =~= wanted);
    out
}

/// The callables of one item.
pub open spec fn item_registered(decls: Declarations, item: CallableItem) -> Seq<Registered> {
    match item {
        CallableItem::Function { function, source, foreign } => if foreign {
            Seq::empty()
        } else {
            seq![
                Registered {
                    receiver: None,
                    origin: None,
                    initializes: None,
                    function,
                    source,
                },
            ]
        },
        CallableItem::Struct { name, source, methods } => struct_registered(
            decls,
            source,
            name,
            methods@,
        ),
        CallableItem::Class { name, source } => class_registered(decls, source, name),
        CallableItem::Construct(construct) => construct_registered(decls, construct),
        CallableItem::Other => Seq::empty(),
    }
}

/// The callables of the first `count` items, in source order.
pub open spec fn items_registered(decls: Declarations, items: Seq<CallableItem>, count: int) -> Seq<
    Registered,
>
    decreases count,
{
    if count <= 0 {
        Seq::empty()
    } else {
        items_registered(decls, items, count - 1) + item_registered(decls, items[count - 1])
    }
}

fn callables_of_item(decls: &Declarations, item: &CallableItem) -> (out: Vec<Callable>)
    requires
        declarations_wf(*decls),
    ensures
        registers(out@, item_registered(*decls, *item)),
{
    match item {
        CallableItem::Function { function, source, foreign } => {
            let mut out: Vec<Callable> = Vec::new();
            if !*foreign {
                out.push(plain(None, None, None, *function, *source));
            }
            out
        },
        CallableItem::Struct { name, source, methods } => {
            callables_of_struct(decls, *source, *name, methods)
        },
        CallableItem::Class { name, source } => callables_of_class(decls, *source, *name),
        CallableItem::Construct(construct) => construct_callables(decls, construct),
        CallableItem::Other => Vec::new(),
    }
}

/// Every function the items declare, in source order: a free function where it was
/// written, and a type's methods where the type was.
pub fn written_callables(decls: &Declarations, items: &Vec<CallableItem>) -> (out: Vec<Callable>)
    requires
        declarations_wf(*decls),
    ensures
        registers(out@, items_registered(*decls, items@, items@.len() as int)),
{
    let mut out: Vec<Callable> = Vec::new();
    let mut i: usize = 0;
    while i < items.len()
        invariant
            i <= items@.len(),
            declarations_wf(*decls),
            registers(out@, items_registered(*decls, items@, i as int)),
        decreases items@.len() - i,
    {
        let ghost before = items_registered(*decls, items@, i as int);
        let ghost held = out@;
        let mut more = callables_of_item(decls, &items[i]);
        let ghost found = more@;
        out.append(&mut more);
        proof {
            let wanted = before + item_registered(*decls, items@[i as int]);
            assert forall|k: int| 0 <= k < out@.len() implies registration(#[trigger] out@[k])
                == wanted[k] && out@[k].specialize@.len() == 0 by {
                if k < held.len() {
                    assert(out@[k] == held[k]);
                } else {
                    assert(out@[k] == found[k - held.len()]);
                }
            }
        }
        i += 1;
    }
    out
}

/// Every callable of a program: what its items declare, then what conforming types
/// take from traits, and then one copy of each per subclass its parameters admit.
pub fn callables(
    decls: &Declarations,
    items: &Vec<CallableItem>,
    from_traits: Vec<Callable>,
    functions: &Vec<FunctionDecl>,
) -> (all: Vec<Callable>)
    requires
        declarations_wf(*decls),
        forall|i: int|
            0 <= i < items_registered(*decls, items@, items@.len() as int).len() ==> (
            #[trigger] items_registered(*decls, items@, items@.len() as int)[i]).function
                < functions@.len(),
        forall|i: int|
            0 <= i < from_traits@.len() ==> (#[trigger] from_traits@[i]).function
                < functions@.len(),
    ensures
        ({
            let written = items_registered(*decls, items@, items@.len() as int);
            let count = written.len() + from_traits@.len();
            let copies = copies_of(
                decls.classes.classes@,
                functions@,
                all@.take(count as int),
                count as int,
            );
            &&& all@.len() == count + copies.len()
            &&& registers(all@.take(written.len() as int), written)
            &&& all@.subrange(written.len() as int, count as int) == from_traits@
            &&& forall|k: int|
                0 <= k < copies.len() ==> specialized_copy(
                    all@[count + k],
                    all@[(#[trigger] copies[k]).0],
                    copies[k].1,
                )
        }),
{
    let mut all = written_callables(decls, items);
    let ghost written = items_registered(*decls, items@, items@.len() as int);
    let ghost own = all@;
    let mut more = from_traits;
    all.append(&mut more);
    let ghost given = all@;
    proof {
        assert forall|i: int| 0 <= i < given.len() implies (#[trigger] given[i]).function
            < functions@.len() by {
            if i < own.len() {
                assert(given[i] == own[i]);
                assert(registration(own[i]) == written[i]);
                assert(written[i].function < functions@.len());
            } else {
                assert(given[i] == from_traits@[i - own.len()]);
            }
        }
    }
    specialize_callables(decls.classes, functions, &mut all);
    proof {
        let count = given.len() as int;
        assert(all@.take(count) == given);
        assert(all@.take(own.len() as int) =~= own) by {
            assert forall|k: int| 0 <= k < own.len() implies all@[k] == own[k] by {
                assert(all@.take(count)[k] == given[k]);
            }
        }
        assert(all@.subrange(own.len() as int, count) =~= from_traits@) by {
            assert forall|k: int| 0 <= k < from_traits@.len() implies all@[own.len() + k]
                == from_traits@[k] by {
                assert(all@.take(count)[own.len() + k] == given[own.len() + k]);
            }
        }
        let copies = copies_of(decls.classes.classes@, functions@, given, count);
        assert forall|k: int| 0 <= k < copies.len() implies specialized_copy(
            all@[count + k],
            all@[(#[trigger] copies[k]).0],
            copies[k].1,
        ) by {
            crate::callables::lemma_copies_of(
                decls.classes.classes@,
                functions@,
                given,
                count,
                k,
            );
            assert(all@.take(count)[copies[k].0] == given[copies[k].0]);
        }
    }
    all
}

/// A requirement never becomes a callable: nothing a declaration inherits or writes
/// implements a method that has no body.
pub proof fn requirements_are_not_registered(
    families: &FamilyTable,
    bodies: Seq<usize>,
    item: ConstructItem,
    id: StructId,
    rows: Seq<(Symbol, MethodEntry)>,
    count: int,
    one: Registered,
)
    requires
        0 <= count <= rows.len(),
        inherited_callables(families, bodies, item, id, rows, count).contains(one),
    ensures
        exists|k: int|
            0 <= k < count && #[trigger] inherits_body(families, item, rows[k]) && one.function
                == bodies[rows[k].1.method as int],
    decreases count,
{
    let before = inherited_callables(families, bodies, item, id, rows, count - 1);
    let now = inherited_callables(families, bodies, item, id, rows, count);
    let i = choose|i: int| 0 <= i < now.len() && now[i] == one;
    if count > 0 {
        if i < before.len() {
            assert(before[i] == one);
            requirements_are_not_registered(families, bodies, item, id, rows, count - 1, one);
        } else {
            assert(inherits_body(families, item, rows[count - 1]));
        }
    }
}

/// A method a declaration writes is never inherited as well: its own body is the
/// one that runs.
pub proof fn own_methods_replace_the_familys(
    families: &FamilyTable,
    item: ConstructItem,
    row: (Symbol, MethodEntry),
    at: int,
)
    requires
        0 <= at < item.methods@.len(),
        item.methods@[at].name == row.0,
        !item.methods@[at].required,
    ensures
        !inherits_body(families, item, row),
{
    assert(writes(item.methods@[at], row.0));
}

proof fn lemma_own_callables(item: ConstructItem, id: StructId, count: int, k: int)
    requires
        0 <= k < count <= item.methods@.len(),
        !item.methods@[k].required,
    ensures
        own_callables(item, id, count).contains(
            Registered {
                receiver: Some(Owner { ty: Type::Struct(id), name: item.name }),
                origin: None,
                initializes: None,
                function: item.methods@[k].function,
                source: item.source,
            },
        ),
    decreases count,
{
    let one = Registered {
        receiver: Some(Owner { ty: Type::Struct(id), name: item.name }),
        origin: None,
        initializes: None,
        function: item.methods@[k].function,
        source: item.source,
    };
    let all = own_callables(item, id, count);
    if k < count - 1 {
        lemma_own_callables(item, id, count - 1, k);
        let before = own_callables(item, id, count - 1);
        let i = choose|i: int| 0 <= i < before.len() && before[i] == one;
        assert(all[i] == one);
    } else {
        assert(all[all.len() - 1] == one);
    }
}

proof fn lemma_inherited_callables(
    families: &FamilyTable,
    bodies: Seq<usize>,
    item: ConstructItem,
    id: StructId,
    rows: Seq<(Symbol, MethodEntry)>,
    count: int,
    k: int,
)
    requires
        0 <= k < count <= rows.len(),
        !families.methods@[rows[k].1.method as int].required,
        forall|i: int|
            0 <= i < item.methods@.len() ==> (#[trigger] item.methods@[i]).name != rows[k].0
                || item.methods@[i].required,
    ensures
        inherited_callables(families, bodies, item, id, rows, count).contains(
            Registered {
                receiver: Some(Owner { ty: Type::Struct(id), name: item.name }),
                origin: None,
                initializes: None,
                function: bodies[rows[k].1.method as int],
                source: families.methods@[rows[k].1.method as int].source,
            },
        ),
    decreases count,
{
    let one = Registered {
        receiver: Some(Owner { ty: Type::Struct(id), name: item.name }),
        origin: None,
        initializes: None,
        function: bodies[rows[k].1.method as int],
        source: families.methods@[rows[k].1.method as int].source,
    };
    let all = inherited_callables(families, bodies, item, id, rows, count);
    if k < count - 1 {
        lemma_inherited_callables(families, bodies, item, id, rows, count - 1, k);
        let before = inherited_callables(families, bodies, item, id, rows, count - 1);
        let i = choose|i: int| 0 <= i < before.len() && before[i] == one;
        assert(all[i] == one);
    } else {
        assert(inherits_body(families, item, rows[k]));
        assert(all[all.len() - 1] == one);
    }
}

/// A construct-backed declaration that has its struct registers every initializer it
/// writes, every method it writes with a body, and every method with a body its family
/// has that it does not write; each runs on the declaration itself, and an inherited one
/// is read in the file of the family that wrote it.
pub proof fn a_declaration_registers_all_it_has(
    decls: Declarations,
    item: ConstructItem,
    id: StructId,
    k: int,
)
    requires
        own_struct(decls, item.source, item.name) == Some(id),
        decls.constructs.info(id) is Some,
    ensures
        0 <= k < item.inits@.len() ==> construct_registered(decls, item).contains(
            Registered {
                receiver: None,
                origin: None,
                initializes: Some(ClassRef { id, name: item.name }),
                function: item.inits@[k],
                source: item.source,
            },
        ),
        0 <= k < item.methods@.len() && !item.methods@[k].required ==> construct_registered(
            decls,
            item,
        ).contains(
            Registered {
                receiver: Some(Owner { ty: Type::Struct(id), name: item.name }),
                origin: None,
                initializes: None,
                function: item.methods@[k].function,
                source: item.source,
            },
        ),
        item.family matches Some(key) ==> (decls.families.families@.contains_key(key) ==> {
            let rows = decls.families.families@[key].methods.rows@;
            0 <= k < rows.len() && !decls.families.methods@[rows[k].1.method as int].required && (
            forall|i: int|
                0 <= i < item.methods@.len() ==> (#[trigger] item.methods@[i]).name != rows[k].0
                    || item.methods@[i].required) ==> construct_registered(decls, item).contains(
                Registered {
                    receiver: Some(Owner { ty: Type::Struct(id), name: item.name }),
                    origin: None,
                    initializes: None,
                    function: decls.bodies@[rows[k].1.method as int],
                    source: decls.families.methods@[rows[k].1.method as int].source,
                },
            )
        }),
{
    let rows = family_rows(decls.families, item.family);
    let a = init_callables(item, id, item.inits@.len() as int);
    let b = own_callables(item, id, item.methods@.len() as int);
    let c = inherited_callables(
        decls.families,
        decls.bodies@,
        item,
        id,
        rows,
        rows.len() as int,
    );
    let all = construct_registered(decls, item);
    assert(all == a + b + c);
    if 0 <= k < item.inits@.len() {
        assert(all[k] == a[k]);
    }
    if 0 <= k < item.methods@.len() && !item.methods@[k].required {
        lemma_own_callables(item, id, item.methods@.len() as int, k);
        let one = Registered {
            receiver: Some(Owner { ty: Type::Struct(id), name: item.name }),
            origin: None,
            initializes: None,
            function: item.methods@[k].function,
            source: item.source,
        };
        let i = choose|i: int| 0 <= i < b.len() && b[i] == one;
        assert(all[a.len() + i] == one);
    }
    if let Some(key) = item.family {
        if decls.families.families@.contains_key(key) && 0 <= k < rows.len()
            && !decls.families.methods@[rows[k].1.method as int].required && (forall|i: int|
            0 <= i < item.methods@.len() ==> (#[trigger] item.methods@[i]).name != rows[k].0
                || item.methods@[i].required) {
            lemma_inherited_callables(
                decls.families,
                decls.bodies@,
                item,
                id,
                rows,
                rows.len() as int,
                k,
            );
            let one = Registered {
                receiver: Some(Owner { ty: Type::Struct(id), name: item.name }),
                origin: None,
                initializes: None,
                function: decls.bodies@[rows[k].1.method as int],
                source: decls.families.methods@[rows[k].1.method as int].source,
            };
            let i = choose|i: int| 0 <= i < c.len() && c[i] == one;
            assert(all[a.len() + b.len() + i] == one);
        }
    }
}

proof fn lemma_item_kept(decls: Declarations, items: Seq<CallableItem>, count: int, k: int, one: Registered)
    requires
        0 <= k < count <= items.len(),
        item_registered(decls, items[k]).contains(one),
    ensures
        items_registered(decls, items, count).contains(one),
    decreases count,
{
    let before = items_registered(decls, items, count - 1);
    let own = item_registered(decls, items[count - 1]);
    let all = items_registered(decls, items, count);
    if k < count - 1 {
        lemma_item_kept(decls, items, count - 1, k, one);
        let i = choose|i: int| 0 <= i < before.len() && before[i] == one;
        assert(all[i] == one);
    } else {
        let i = choose|i: int| 0 <= i < own.len() && own[i] == one;
        assert(all[before.len() + i] == one);
    }
}

/// A program registers every function its items declare: a free function that stands for
/// no foreign symbol, as itself, in its own file; a struct's methods, on that struct; and
/// everything its other items register.
pub proof fn every_declared_function_is_registered(
    decls: Declarations,
    items: Seq<CallableItem>,
    k: int,
    m: int,
    one: Registered,
)
    requires
        0 <= k < items.len(),
    ensures
        items[k] matches CallableItem::Function { function, source, foreign } ==> (!foreign
            ==> items_registered(decls, items, items.len() as int).contains(
            Registered { receiver: None, origin: None, initializes: None, function, source },
        )),
        items[k] matches CallableItem::Struct { name, source, methods } ==> (0 <= m < methods@.len()
            ==> (own_struct(decls, source, name) matches Some(id) ==> items_registered(
            decls,
            items,
            items.len() as int,
        ).contains(
            Registered {
                receiver: Some(Owner { ty: Type::Struct(id), name }),
                origin: None,
                initializes: None,
                function: methods@[m],
                source,
            },
        ))),
        items[k] matches CallableItem::Construct(construct) ==> (construct_registered(
            decls,
            construct,
        ).contains(one) ==> items_registered(decls, items, items.len() as int).contains(one)),
        items[k] matches CallableItem::Class { name, source } ==> (class_registered(
            decls,
            source,
            name,
        ).contains(one) ==> items_registered(decls, items, items.len() as int).contains(one)),
{
    let count = items.len() as int;
    let own = item_registered(decls, items[k]);
    match items[k] {
        CallableItem::Function { function, source, foreign } => {
            if !foreign {
                assert(own[0] == own[0]);
                assert(own.contains(own[0]));
                lemma_item_kept(decls, items, count, k, own[0]);
            }
        },
        CallableItem::Struct { name, source, methods } => {
            if 0 <= m < methods@.len() {
                assert(own.contains(own[m]));
                lemma_item_kept(decls, items, count, k, own[m]);
            }
        },
        CallableItem::Construct(construct) => {
            if construct_registered(decls, construct).contains(one) {
                lemma_item_kept(decls, items, count, k, one);
            }
        },
        CallableItem::Class { name, source } => {
            if class_registered(decls, source, name).contains(one) {
                lemma_item_kept(decls, items, count, k, one);
            }
        },
        CallableItem::Other => {},
    }
}

/// A class's callable runs on the class itself, and keeps the body, the file and the class
/// it was written in.
pub proof fn a_class_callable_runs_on_its_class(
    types: &TypeTable,
    id: StructId,
    name: Symbol,
    callable: ClassCallable,
)
    ensures
        ({
            let one = class_registration(types, id, name, callable);
            &&& one.receiver matches Some(owner) && owner.ty == Type::Struct(id) && owner.name
                == name
            &&& one.origin matches Some(origin) && origin.id == callable.origin
            &&& one.initializes is None
            &&& one.function == callable.function
            &&& one.source == callable.source
        }),
{
}

/// A type is spelled by the name it was declared under, and by the name given where it has
/// none.
pub proof fn a_type_is_spelled_by_its_declared_name(
    types: &TypeTable,
    id: StructId,
    otherwise: Symbol,
    name: Symbol,
)
    ensures
        types.declared_name(id) == Some(name) ==> spelled(types, id, otherwise) == name,
        types.declared_name(id) is None ==> spelled(types, id, otherwise) == otherwise,
{
}

/// The callables of a program are what was to be registered, one for each and in order,
/// each as it was written.
pub proof fn every_registration_is_a_callable(
    callables: Seq<Callable>,
    wanted: Seq<Registered>,
    i: int,
)
    requires
        registers(callables, wanted),
        0 <= i < wanted.len(),
    ensures
        callables.len() == wanted.len(),
        callables[i].function == wanted[i].function,
        callables[i].source == wanted[i].source,
        callables[i].receiver == wanted[i].receiver,
        callables[i].origin == wanted[i].origin,
        callables[i].initializes == wanted[i].initializes,
        callables[i].specialize@.len() == 0,
{
    assert(registration(callables[i]) == wanted[i]);
}

} // verus!

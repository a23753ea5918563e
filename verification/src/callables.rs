//! Which callables a program has, and what each one is named.
//!
//! Specialization and naming live together because they answer one question
//! between them: given a call, which body does it reach.

use vstd::prelude::*;

use crate::class_methods::{bare_means, is_most_derived};
use crate::classes::{ClassInfo, ClassTable};
use crate::lists::copied;
use crate::names::Symbol;
use crate::source::{SourceId, Span};
use crate::syntax::{ExprId, MemberKey};
use crate::ty::{Execution, OwnershipMode, StructId, Type};

verus! {

/// A struct and the name its type is spelled by.
#[derive(Clone, Copy, PartialEq, Eq, Structural, Debug)]
pub struct ClassRef {
    pub id: StructId,
    pub name: Symbol,
}

/// The type a method runs on, and how it is spelled.
#[derive(Clone, Copy, PartialEq, Eq, Structural, Debug)]
pub struct Owner {
    pub ty: Type,
    pub name: Symbol,
}

/// One parameter as written, its type resolved.
#[derive(Clone, Copy, PartialEq, Eq, Structural, Debug)]
pub struct ParamDecl {
    pub name: Symbol,
    pub name_span: Span,
    pub ty: Type,
    /// The class the written type names, when it names one.
    pub class: Option<StructId>,
    pub ownership: OwnershipMode,
    pub default: Option<ExprId>,
}

/// A written `self` parameter.
#[derive(Clone, Copy, PartialEq, Eq, Structural, Debug)]
pub struct ReceiverDecl {
    pub span: Span,
    pub mutable: bool,
}

/// One function as written.
#[derive(Debug)]
pub struct FunctionDecl {
    pub name: Symbol,
    pub name_span: Span,
    /// What the function is known by as a member.
    pub key: MemberKey,
    pub receiver: Option<ReceiverDecl>,
    pub params: Vec<ParamDecl>,
    pub return_type: Option<Type>,
    pub is_main: bool,
    pub is_main_thread: bool,
    pub is_main_thread_lifecycle: bool,
    pub is_async: bool,
    pub execution: Execution,
}

/// One declared function plus the type it is a method of, if any.
#[derive(Debug)]
pub struct Callable {
    /// The type whose method this is; `None` for a free function.
    pub receiver: Option<Owner>,
    /// For a class method, the class that wrote the body.
    pub origin: Option<ClassRef>,
    /// Parameters whose declared class is replaced by a subclass, by index into
    /// the written parameter list. Empty for the function as written.
    pub specialize: Vec<(usize, ClassRef)>,
    /// The construct-backed declaration this is an `init(…)` of.
    pub initializes: Option<ClassRef>,
    /// The declaration, by its place among the program's functions.
    pub function: usize,
    /// The file the declaration was written in.
    pub source: SourceId,
}

/// What a callable's name is made of.
#[derive(Clone, Copy, PartialEq, Eq, Structural, Debug)]
pub enum NameForm {
    /// `Owner$init`: every `init(…)` of one declaration.
    Initializer { owner: Symbol },
    Free { name: Symbol },
    /// `Owner.name`.
    Method { owner: Symbol, name: Symbol },
    /// `Owner.Origin$name`: a copy an override shadows.
    Shadowed { owner: Symbol, origin: Symbol, name: Symbol },
}

/// The name a callable is known by: its form, and for a specialized copy the
/// subclass of each specialized parameter.
#[derive(Debug)]
pub struct CallName {
    pub form: NameForm,
    pub copies: Vec<(usize, Symbol)>,
}

impl View for CallName {
    type V = (NameForm, Seq<(usize, Symbol)>);

    open spec fn view(&self) -> (NameForm, Seq<(usize, Symbol)>) {
        (self.form, self.copies@)
    }
}

/// Whether two names are the same.
pub fn same_name(a: &CallName, b: &CallName) -> (res: bool)
    ensures
        res == (a@ == b@),
{
    if a.form != b.form || a.copies.len() != b.copies.len() {
        return false;
    }
    let mut i: usize = 0;
    while i < a.copies.len()
        invariant
            a.copies@.len() == b.copies@.len(),
            a.form == b.form,
            i <= a.copies@.len(),
            forall|k: int| 0 <= k < i ==> a.copies@[k] == b.copies@[k],
        decreases a.copies@.len() - i,
    {
        let (slot, class) = a.copies[i];
        let (other_slot, other_class) = b.copies[i];
        if slot != other_slot || class != other_class {
            assert(a.copies@[i as int] != b.copies@[i as int]);
            return false;
        }
        i += 1;
    }
    assert(a.copies@ =~= b.copies@);
    true
}

/// Whether a name is written with a qualifier, and so reached through a value.
pub open spec fn is_qualified(form: NameForm) -> bool {
    form is Method || form is Shadowed
}

/// The name suffix of a specialized copy.
pub open spec fn copy_suffix(specialize: Seq<(usize, ClassRef)>) -> Seq<(usize, Symbol)> {
    specialize.map_values(|entry: (usize, ClassRef)| (entry.0, entry.1.name))
}

/// Whether `origin`'s copy is the one a bare `key` means on `owner`.
pub open spec fn wins_bare_lookup(
    classes: &ClassTable,
    owner: Owner,
    origin: ClassRef,
    key: MemberKey,
) -> bool {
    match owner.ty {
        Type::Struct(id) => classes.info(id) matches Some(info) && bare_means(
            info.bare_methods@,
            key,
            origin.id,
        ),
        _ => false,
    }
}

/// The name a callable is known by.
///
/// A method is qualified with its type. A class carries one copy of every method
/// any ancestor declares: the copy that wins bare lookup takes the plain name,
/// and a copy an override shadows takes a name qualified by its origin.
pub open spec fn name_of(
    classes: &ClassTable,
    function: FunctionDecl,
    callable: Callable,
) -> (NameForm, Seq<(usize, Symbol)>) {
    match callable.initializes {
        Some(class) => (NameForm::Initializer { owner: class.name }, Seq::empty()),
        None => (
            match callable.receiver {
                None => NameForm::Free { name: function.name },
                Some(owner) => match callable.origin {
                    Some(origin) if !wins_bare_lookup(classes, owner, origin, function.key) => {
                        NameForm::Shadowed {
                            owner: owner.name,
                            origin: origin.name,
                            name: function.name,
                        }
                    },
                    _ => NameForm::Method { owner: owner.name, name: function.name },
                },
            },
            copy_suffix(callable.specialize@),
        ),
    }
}

/// The name a callable is known by.
pub fn callable_name(
    classes: &ClassTable,
    function: &FunctionDecl,
    callable: &Callable,
) -> (name: CallName)
    ensures
        name@ == name_of(classes, *function, *callable),
{
    if let Some(class) = callable.initializes {
        let name = CallName {
            form: NameForm::Initializer { owner: class.name },
            copies: Vec::new(),
        };
        assert(name.copies@ =~= Seq::empty());
        return name;
    }
    let mut copies: Vec<(usize, Symbol)> = Vec::new();
    let mut i: usize = 0;
    while i < callable.specialize.len()
        invariant
            i <= callable.specialize@.len(),
            copies@ == copy_suffix(callable.specialize@.take(i as int)),
        decreases callable.specialize@.len() - i,
    {
        let (slot, class) = callable.specialize[i];
        copies.push((slot, class.name));
        i += 1;
        assert(copies@ =~= copy_suffix(callable.specialize@.take(i as int)));
    }
    assert(callable.specialize@.take(i as int) =~= callable.specialize@);
    let form = match callable.receiver {
        None => NameForm::Free { name: function.name },
        Some(owner) => match callable.origin {
            Some(origin) => {
                let wins = match owner.ty {
                    Type::Struct(id) => is_most_derived(classes, id, origin.id, function.key),
                    _ => false,
                };
                if wins {
                    NameForm::Method { owner: owner.name, name: function.name }
                } else {
                    NameForm::Shadowed {
                        owner: owner.name,
                        origin: origin.name,
                        name: function.name,
                    }
                }
            },
            None => NameForm::Method { owner: owner.name, name: function.name },
        },
    };
    CallName { form, copies }
}

/// The classes among the first `count` that inherit from `declared`, in order.
pub open spec fn subclasses_of(
    classes: Seq<ClassInfo>,
    declared: StructId,
    count: int,
) -> Seq<ClassRef>
    decreases count,
{
    if count <= 0 {
        Seq::empty()
    } else {
        let before = subclasses_of(classes, declared, count - 1);
        let info = classes[count - 1];
        if info.id != declared && info.ancestors@.contains(declared) {
            before.push(ClassRef { id: info.id, name: info.name })
        } else {
            before
        }
    }
}

fn subclasses(classes: &ClassTable, declared: StructId) -> (found: Vec<ClassRef>)
    ensures
        found@ == subclasses_of(classes.classes@, declared, classes.classes@.len() as int),
{
    let mut found: Vec<ClassRef> = Vec::new();
    let mut i: usize = 0;
    while i < classes.classes.len()
        invariant
            i <= classes.classes@.len(),
            found@ == subclasses_of(classes.classes@, declared, i as int),
        decreases classes.classes@.len() - i,
    {
        let info = &classes.classes[i];
        if info.id != declared && crate::classes::struct_listed(&info.ancestors, declared) {
            found.push(ClassRef { id: info.id, name: info.name });
        }
        i += 1;
    }
    found
}

/// The parameters among the first `count` that name a class some class inherits,
/// each with those classes.
pub open spec fn choices_of(
    classes: Seq<ClassInfo>,
    params: Seq<ParamDecl>,
    count: int,
) -> Seq<(usize, Seq<ClassRef>)>
    decreases count,
{
    if count <= 0 {
        Seq::empty()
    } else {
        let before = choices_of(classes, params, count - 1);
        match params[count - 1].class {
            Some(declared) => {
                let found = subclasses_of(classes, declared, classes.len() as int);
                if found.len() == 0 {
                    before
                } else {
                    before.push(((count - 1) as usize, found))
                }
            },
            None => before,
        }
    }
}

/// The choices as the sequences they hold.
pub open spec fn choices_view(choices: Seq<(usize, Vec<ClassRef>)>) -> Seq<(usize, Seq<ClassRef>)> {
    choices.map_values(|entry: (usize, Vec<ClassRef>)| (entry.0, entry.1@))
}

/// Each written parameter that names a class, with the classes that inherit it.
/// A copy is not specialized again.
pub fn parameter_subclasses(
    classes: &ClassTable,
    params: &Vec<ParamDecl>,
    specialized: bool,
) -> (found: Vec<(usize, Vec<ClassRef>)>)
    ensures
        choices_view(found@) == if specialized {
            Seq::empty()
        } else {
            choices_of(classes.classes@, params@, params@.len() as int)
        },
{
    let mut found: Vec<(usize, Vec<ClassRef>)> = Vec::new();
    assert(choices_view(found@) =~= Seq::empty());
    if specialized {
        return found;
    }
    let mut i: usize = 0;
    while i < params.len()
        invariant
            i <= params@.len(),
            choices_view(found@) == choices_of(classes.classes@, params@, i as int),
        decreases params@.len() - i,
    {
        let ghost before = found@;
        if let Some(declared) = params[i].class {
            let heirs = subclasses(classes, declared);
            if heirs.len() > 0 {
                let ghost added = heirs@;
                found.push((i, heirs));
                assert(choices_view(found@) =~= choices_view(before).push((i, added)));
            }
        }
        i += 1;
    }
    found
}

/// One choice of subclasses for some parameters.
pub type Choice = Seq<(usize, ClassRef)>;

/// `existing` as it is, and once for each of the first `count` subclasses.
pub open spec fn grown_one(
    existing: Choice,
    index: usize,
    subclasses: Seq<ClassRef>,
    count: int,
) -> Seq<Choice>
    decreases count,
{
    if count <= 0 {
        seq![existing]
    } else {
        grown_one(existing, index, subclasses, count - 1).push(
            existing.push((index, subclasses[count - 1])),
        )
    }
}

/// The first `count` combinations, each as it is and once for each subclass of
/// parameter `index`.
pub open spec fn grown(
    combinations: Seq<Choice>,
    index: usize,
    subclasses: Seq<ClassRef>,
    count: int,
) -> Seq<Choice>
    decreases count,
{
    if count <= 0 {
        Seq::empty()
    } else {
        grown(combinations, index, subclasses, count - 1) + grown_one(
            combinations[count - 1],
            index,
            subclasses,
            subclasses.len() as int,
        )
    }
}

/// The combinations over the first `count` choices.
pub open spec fn combined(choices: Seq<(usize, Seq<ClassRef>)>, count: int) -> Seq<Choice>
    decreases count,
{
    if count <= 0 {
        seq![Seq::empty()]
    } else {
        let before = combined(choices, count - 1);
        grown(before, choices[count - 1].0, choices[count - 1].1, before.len() as int)
    }
}

/// How many copies of one callable specialization may produce. Past it the
/// function keeps only what was written.
pub const SPECIALIZATION_LIMIT: usize = 64;

/// The combinations a callable is specialized for: every one but the empty one,
/// and none at all where there are too many.
pub open spec fn specializations(choices: Seq<(usize, Seq<ClassRef>)>) -> Seq<Choice> {
    let all = combined(choices, choices.len() as int);
    if choices.len() == 0 || all.len() > SPECIALIZATION_LIMIT {
        Seq::empty()
    } else {
        all.drop_first()
    }
}

/// The combinations as the sequences they hold.
pub open spec fn combos_view(combos: Seq<Vec<(usize, ClassRef)>>) -> Seq<Choice> {
    combos.map_values(|combo: Vec<(usize, ClassRef)>| combo@)
}

proof fn lemma_grown_one(existing: Choice, index: usize, subclasses: Seq<ClassRef>, count: int)
    requires
        0 <= count <= subclasses.len(),
    ensures
        grown_one(existing, index, subclasses, count).len() == count + 1,
        grown_one(existing, index, subclasses, count)[0] == existing,
        forall|k: int|
            1 <= k <= count ==> #[trigger] grown_one(existing, index, subclasses, count)[k]
                == existing.push((index, subclasses[k - 1])),
    decreases count,
{
    if count > 0 {
        lemma_grown_one(existing, index, subclasses, count - 1);
    }
}

proof fn lemma_grown_len(
    combinations: Seq<Choice>,
    index: usize,
    subclasses: Seq<ClassRef>,
    count: int,
)
    requires
        0 <= count <= combinations.len(),
    ensures
        grown(combinations, index, subclasses, count).len() >= count,
        count > 0 ==> grown(combinations, index, subclasses, count)[0] == combinations[0],
    decreases count,
{
    if count > 0 {
        lemma_grown_len(combinations, index, subclasses, count - 1);
        lemma_grown_one(
            combinations[count - 1],
            index,
            subclasses,
            subclasses.len() as int,
        );
    }
}

proof fn lemma_combined(choices: Seq<(usize, Seq<ClassRef>)>, low: int, high: int)
    requires
        0 <= low <= high <= choices.len(),
    ensures
        combined(choices, low).len() <= combined(choices, high).len(),
        combined(choices, low).len() >= 1,
        combined(choices, low)[0] == Seq::<(usize, ClassRef)>::empty(),
    decreases high,
{
    if low < high {
        lemma_combined(choices, low, high - 1);
        let before = combined(choices, high - 1);
        lemma_grown_len(
            before,
            choices[high - 1].0,
            choices[high - 1].1,
            before.len() as int,
        );
    } else if low > 0 {
        lemma_combined(choices, low - 1, low - 1);
        let before = combined(choices, low - 1);
        lemma_grown_len(before, choices[low - 1].0, choices[low - 1].1, before.len() as int);
    }
}

fn grow_combinations(
    combinations: &Vec<Vec<(usize, ClassRef)>>,
    index: usize,
    subclasses: &Vec<ClassRef>,
) -> (more: Vec<Vec<(usize, ClassRef)>>)
    ensures
        combos_view(more@) == grown(
            combos_view(combinations@),
            index,
            subclasses@,
            combinations@.len() as int,
        ),
{
    let mut more: Vec<Vec<(usize, ClassRef)>> = Vec::new();
    let ghost all = combos_view(combinations@);
    assert(combos_view(more@) =~= Seq::empty());
    let mut c: usize = 0;
    while c < combinations.len()
        invariant
            c <= combinations@.len(),
            all == combos_view(combinations@),
            combos_view(more@) == grown(all, index, subclasses@, c as int),
        decreases combinations@.len() - c,
    {
        let ghost before = combos_view(more@);
        let ghost existing = combinations@[c as int]@;
        more.push(copied(&combinations[c]));
        assert(combos_view(more@) =~= before + grown_one(existing, index, subclasses@, 0));
        let mut s: usize = 0;
        while s < subclasses.len()
            invariant
                c < combinations@.len(),
                existing == combinations@[c as int]@,
                s <= subclasses@.len(),
                combos_view(more@) == before + grown_one(existing, index, subclasses@, s as int),
            decreases subclasses@.len() - s,
        {
            let ghost so_far = combos_view(more@);
            let mut next = copied(&combinations[c]);
            next.push((index, subclasses[s]));
            let ghost pushed = next@;
            more.push(next);
            s += 1;
            assert(combos_view(more@) =~= so_far.push(pushed));
            assert(combos_view(more@) =~= before + grown_one(
                existing,
                index,
                subclasses@,
                s as int,
            ));
        }
        assert(all[c as int] == existing);
        c += 1;
    }
    more
}

/// Every combination of subclasses one callable is specialized for, in order.
pub fn specialize_choices(choices: &Vec<(usize, Vec<ClassRef>)>) -> (found: Vec<
    Vec<(usize, ClassRef)>,
>)
    ensures
        combos_view(found@) == specializations(choices_view(choices@)),
{
    let ghost wanted = choices_view(choices@);
    let mut combinations: Vec<Vec<(usize, ClassRef)>> = Vec::new();
    if choices.len() == 0 {
        assert(combos_view(combinations@) =~= Seq::empty());
        return combinations;
    }
    combinations.push(Vec::new());
    assert(combos_view(combinations@) =~= combined(wanted, 0)) by {
        assert(combos_view(combinations@)[0] =~= Seq::<(usize, ClassRef)>::empty());
    }
    let mut i: usize = 0;
    while i < choices.len()
        invariant
            i <= choices@.len(),
            choices@.len() > 0,
            wanted == choices_view(choices@),
            combos_view(combinations@) == combined(wanted, i as int),
        decreases choices@.len() - i,
    {
        let ghost before = combos_view(combinations@);
        combinations = grow_combinations(&combinations, choices[i].0, &choices[i].1);
        i += 1;
        assert(wanted[i - 1] == (choices@[i - 1].0, choices@[i - 1].1@));
        assert(combos_view(combinations@) == combined(wanted, i as int));
        if combinations.len() > SPECIALIZATION_LIMIT {
            proof {
                lemma_combined(wanted, i as int, wanted.len() as int);
                assert(combos_view(combinations@).len() == combinations@.len());
            }
            let none: Vec<Vec<(usize, ClassRef)>> = Vec::new();
            assert(combos_view(none@) =~= Seq::empty());
            return none;
        }
    }
    let mut kept: Vec<Vec<(usize, ClassRef)>> = Vec::new();
    proof {
        lemma_combined(wanted, wanted.len() as int, wanted.len() as int);
        assert(combos_view(combinations@).len() == combinations@.len());
    }
    if combinations.len() > SPECIALIZATION_LIMIT {
        assert(combos_view(kept@) =~= Seq::empty());
        return kept;
    }
    let ghost all = combos_view(combinations@);
    let mut k: usize = 1;
    assert(combos_view(kept@) =~= all.subrange(1, 1));
    while k < combinations.len()
        invariant
            1 <= k <= combinations@.len(),
            all == combos_view(combinations@),
            combos_view(kept@) == all.subrange(1, k as int),
        decreases combinations@.len() - k,
    {
        let ghost before = combos_view(kept@);
        let combo = copied(&combinations[k]);
        let ghost value = combo@;
        kept.push(combo);
        k += 1;
        assert(all[k - 1] == value);
        assert(combos_view(kept@) =~= before.push(value));
        assert(combos_view(kept@) =~= all.subrange(1, k as int));
    }
    assert(all.subrange(1, k as int) =~= all.drop_first());
    kept
}

/// `copy` is `callable` specialized for `choice`.
pub open spec fn specialized_copy(copy: Callable, callable: Callable, choice: Choice) -> bool {
    &&& copy.specialize@ == choice
    &&& copy == (Callable { specialize: copy.specialize, ..callable })
}

/// The copies the first `count` callables get, in order: which callable each is
/// a copy of, and for what choice.
pub open spec fn copies_of(
    classes: Seq<ClassInfo>,
    functions: Seq<FunctionDecl>,
    callables: Seq<Callable>,
    count: int,
) -> Seq<(int, Choice)>
    decreases count,
{
    if count <= 0 {
        Seq::empty()
    } else {
        let callable = callables[count - 1];
        let params = functions[callable.function as int].params@;
        let choices = if callable.specialize@.len() > 0 {
            Seq::empty()
        } else {
            choices_of(classes, params, params.len() as int)
        };
        copies_of(classes, functions, callables, count - 1) + specializations(choices).map_values(
            |choice: Choice| (count - 1, choice),
        )
    }
}

/// Every copy is of one of the callables.
pub proof fn lemma_copies_of(
    classes: Seq<ClassInfo>,
    functions: Seq<FunctionDecl>,
    callables: Seq<Callable>,
    count: int,
    k: int,
)
    requires
        0 <= k < copies_of(classes, functions, callables, count).len(),
    ensures
        0 <= copies_of(classes, functions, callables, count)[k].0 < count,
    decreases count,
{
    if count > 0 {
        if k < copies_of(classes, functions, callables, count - 1).len() {
            lemma_copies_of(classes, functions, callables, count - 1, k);
        }
    }
}

/// Adds one copy of every callable per subclass its parameters admit.
///
/// This is what makes a function of `Animal` accept a `Dog` and call `Dog`'s
/// override: the copy has that parameter typed as `Dog`.
pub fn specialize_callables(
    classes: &ClassTable,
    functions: &Vec<FunctionDecl>,
    callables: &mut Vec<Callable>,
)
    requires
        forall|i: int|
            0 <= i < old(callables)@.len() ==> (#[trigger] old(callables)@[i]).function
                < functions@.len(),
    ensures
        ({
            let copies = copies_of(
                classes.classes@,
                functions@,
                old(callables)@,
                old(callables)@.len() as int,
            );
            &&& final(callables)@.len() == old(callables)@.len() + copies.len()
            &&& final(callables)@.take(old(callables)@.len() as int) == old(callables)@
            &&& forall|k: int|
                0 <= k < copies.len() ==> specialized_copy(
                    final(callables)@[old(callables)@.len() + k],
                    old(callables)@[(#[trigger] copies[k]).0],
                    copies[k].1,
                )
        }),
{
    let count: usize = callables.len();
    let ghost given = callables@;
    assert(callables@.take(count as int) =~= given);
    let mut i: usize = 0;
    while i < count
        invariant
            i <= count,
            count == given.len(),
            given == old(callables)@,
            forall|k: int|
                0 <= k < given.len() ==> (#[trigger] given[k]).function < functions@.len(),
            callables@.len() == count + copies_of(
                classes.classes@,
                functions@,
                given,
                i as int,
            ).len(),
            callables@.take(count as int) == given,
            forall|k: int|
                0 <= k < copies_of(classes.classes@, functions@, given, i as int).len()
                    ==> specialized_copy(
                    callables@[count + k],
                    given[(#[trigger] copies_of(
                        classes.classes@,
                        functions@,
                        given,
                        i as int,
                    )[k]).0],
                    copies_of(classes.classes@, functions@, given, i as int)[k].1,
                ),
        decreases count - i,
    {
        let ghost before = copies_of(classes.classes@, functions@, given, i as int);
        assert(callables@[i as int] == given[i as int]) by {
            assert(callables@.take(count as int)[i as int] == given[i as int]);
        }
        let function: usize = callables[i].function;
        let specialized = callables[i].specialize.len() > 0;
        let choices = parameter_subclasses(classes, &functions[function].params, specialized);
        let found = specialize_choices(&choices);
        let ghost made = combos_view(found@);
        let ghost start = callables@;
        let mut k: usize = 0;
        while k < found.len()
            invariant
                k <= found@.len(),
                i < count,
                count == given.len(),
                made == combos_view(found@),
                start.len() >= count,
                start.take(count as int) == given,
                callables@.len() == start.len() + k,
                forall|j: int| 0 <= j < start.len() ==> #[trigger] callables@[j] == start[j],
                forall|j: int|
                    0 <= j < k ==> specialized_copy(
                        callables@[start.len() + j],
                        given[i as int],
                        #[trigger] made[j],
                    ),
            decreases found@.len() - k,
        {
            assert(callables@[i as int] == given[i as int]) by {
                assert(start.take(count as int)[i as int] == given[i as int]);
            }
            let specialize = copied(&found[k]);
            let copy = Callable {
                receiver: callables[i].receiver,
                origin: callables[i].origin,
                specialize,
                initializes: callables[i].initializes,
                function: callables[i].function,
                source: callables[i].source,
            };
            let ghost was = callables@;
            callables.push(copy);
            k += 1;
            assert forall|j: int| 0 <= j < k implies specialized_copy(
                callables@[start.len() + j],
                given[i as int],
                #[trigger] made[j],
            ) by {
                if j < k - 1 {
                    assert(callables@[start.len() + j] == was[start.len() + j]);
                }
            }
        }
        i += 1;
        proof {
            let added = made.map_values(|choice: Choice| (i - 1, choice));
            let after = copies_of(classes.classes@, functions@, given, i as int);
            assert(after == before + added);
            assert(callables@.take(count as int) =~= given) by {
                assert forall|j: int| 0 <= j < count implies callables@[j] == given[j] by {
                    assert(callables@[j] == start[j]);
                    assert(start.take(count as int)[j] == given[j]);
                }
            }
            assert forall|j: int| 0 <= j < after.len() implies specialized_copy(
                callables@[count + j],
                given[(#[trigger] after[j]).0],
                after[j].1,
            ) by {
                if j < before.len() {
                    assert(after[j] == before[j]);
                    assert(callables@[count + j] == start[count + j]);
                } else {
                    let m = j - before.len();
                    assert(after[j] == added[m]);
                    assert(specialized_copy(
                        callables@[start.len() + m],
                        given[i - 1],
                        made[m],
                    ));
                }
            }
        }
    }
}

/// `choice` leaves each of the first `count` parameters as declared or gives it
/// one of its subclasses, in parameter order.
pub open spec fn possible(
    choices: Seq<(usize, Seq<ClassRef>)>,
    count: int,
    choice: Choice,
) -> bool
    decreases count,
{
    if count <= 0 {
        choice.len() == 0
    } else {
        ||| possible(choices, count - 1, choice)
        ||| choice.len() > 0 && choice.last().0 == choices[count - 1].0
            && choices[count - 1].1.contains(choice.last().1) && possible(
            choices,
            count - 1,
            choice.drop_last(),
        )
    }
}

proof fn lemma_grown_contains(
    combinations: Seq<Choice>,
    index: usize,
    subclasses: Seq<ClassRef>,
    count: int,
    choice: Choice,
)
    requires
        0 <= count <= combinations.len(),
    ensures
        grown(combinations, index, subclasses, count).contains(choice) <==> combinations.take(
            count,
        ).contains(choice) || (choice.len() > 0 && choice.last().0 == index && subclasses.contains(
            choice.last().1,
        ) && combinations.take(count).contains(choice.drop_last())),
    decreases count,
{
    let all = grown(combinations, index, subclasses, count);
    if count > 0 {
        lemma_grown_contains(combinations, index, subclasses, count - 1, choice);
        let before = grown(combinations, index, subclasses, count - 1);
        let existing = combinations[count - 1];
        let more = grown_one(existing, index, subclasses, subclasses.len() as int);
        lemma_grown_one(existing, index, subclasses, subclasses.len() as int);
        let shorter = combinations.take(count - 1);
        let longer = combinations.take(count);
        assert(longer =~= shorter.push(existing));
        assert(longer[count - 1] == existing);
        assert forall|c: Choice| #[trigger] shorter.contains(c) implies longer.contains(c) by {
            let j = choose|j: int| 0 <= j < shorter.len() && shorter[j] == c;
            assert(longer[j] == c);
        }
        assert forall|c: Choice| #[trigger] longer.contains(c) implies shorter.contains(c) || c
            == existing by {
            let j = choose|j: int| 0 <= j < longer.len() && longer[j] == c;
            if j < count - 1 {
                assert(shorter[j] == c);
            }
        }
        if all.contains(choice) {
            let j = choose|j: int| 0 <= j < all.len() && all[j] == choice;
            if j < before.len() {
                assert(before[j] == choice);
                assert(before.contains(choice));
            } else {
                let m = j - before.len();
                assert(more[m] == choice);
                if m > 0 {
                    assert(choice == existing.push((index, subclasses[m - 1])));
                    assert(choice.drop_last() =~= existing);
                    assert(subclasses.contains(subclasses[m - 1]));
                }
            }
        }
        if before.contains(choice) {
            let j = choose|j: int| 0 <= j < before.len() && before[j] == choice;
            assert(all[j] == choice);
        }
        if choice == existing {
            assert(all[before.len() as int] == more[0]);
        }
        if choice.len() > 0 && choice.last().0 == index && subclasses.contains(choice.last().1)
            && choice.drop_last() == existing {
            let m = choose|m: int| 0 <= m < subclasses.len() && subclasses[m] == choice.last().1;
            assert(choice =~= existing.push((index, subclasses[m])));
            assert(more[m + 1] == choice);
            assert(all[before.len() + m + 1] == choice);
        }
    }
}

/// The combinations are exactly the possible choices.
pub proof fn combinations_are_the_possible_choices(
    choices: Seq<(usize, Seq<ClassRef>)>,
    count: int,
    choice: Choice,
)
    requires
        0 <= count <= choices.len(),
    ensures
        combined(choices, count).contains(choice) <==> possible(choices, count, choice),
    decreases count,
{
    if count > 0 {
        let before = combined(choices, count - 1);
        combinations_are_the_possible_choices(choices, count - 1, choice);
        if choice.len() > 0 {
            combinations_are_the_possible_choices(choices, count - 1, choice.drop_last());
        }
        lemma_grown_contains(
            before,
            choices[count - 1].0,
            choices[count - 1].1,
            before.len() as int,
            choice,
        );
        assert(before.take(before.len() as int) =~= before);
    } else {
        assert(combined(choices, count)[0] == Seq::<(usize, ClassRef)>::empty());
        if choice.len() == 0 {
            assert(choice =~= Seq::<(usize, ClassRef)>::empty());
        }
    }
}

/// What a callable is named. An initializer has its declaration's name alone. A free
/// function has its own. A method has its type's name and its own, unless it comes from a
/// class whose copy a bare member of the type does not mean, which is then named after
/// that class too. A specialized copy names the subclass of each specialized parameter, in
/// order.
pub proof fn a_callable_is_named_by_what_it_is(
    classes: &ClassTable,
    function: FunctionDecl,
    callable: Callable,
    k: int,
)
    ensures
        callable.initializes matches Some(class) ==> name_of(classes, function, callable) == (
            NameForm::Initializer { owner: class.name },
            Seq::<(usize, Symbol)>::empty(),
        ),
        callable.initializes is None && callable.receiver is None ==> name_of(
            classes,
            function,
            callable,
        ).0 == (NameForm::Free { name: function.name }),
        callable.initializes is None ==> (callable.receiver matches Some(owner) ==> (
        callable.origin is None ==> name_of(classes, function, callable).0 == (NameForm::Method {
            owner: owner.name,
            name: function.name,
        }))),
        callable.initializes is None ==> (callable.receiver matches Some(owner) ==> (
        callable.origin matches Some(origin) ==> name_of(classes, function, callable).0
            == if wins_bare_lookup(classes, owner, origin, function.key) {
            NameForm::Method { owner: owner.name, name: function.name }
        } else {
            NameForm::Shadowed { owner: owner.name, origin: origin.name, name: function.name }
        })),
        callable.initializes is None ==> name_of(classes, function, callable).1.len()
            == callable.specialize@.len(),
        callable.initializes is None && 0 <= k < callable.specialize@.len() ==> name_of(
            classes,
            function,
            callable,
        ).1[k] == (callable.specialize@[k].0, callable.specialize@[k].1.name),
{
}

proof fn lemma_subclasses(classes: Seq<ClassInfo>, declared: StructId, count: int, k: int)
    requires
        0 <= count <= classes.len(),
    ensures
        0 <= k < count && classes[k].id != declared && classes[k].ancestors@.contains(declared)
            ==> subclasses_of(classes, declared, count).contains(
            ClassRef { id: classes[k].id, name: classes[k].name },
        ),
        0 <= k < subclasses_of(classes, declared, count).len() ==> exists|i: int|
            0 <= i < count && (#[trigger] classes[i]).id == subclasses_of(
                classes,
                declared,
                count,
            )[k].id && classes[i].name == subclasses_of(classes, declared, count)[k].name
                && classes[i].id != declared && classes[i].ancestors@.contains(declared),
    decreases count,
{
    if count > 0 {
        lemma_subclasses(classes, declared, count - 1, k);
        let before = subclasses_of(classes, declared, count - 1);
        let all = subclasses_of(classes, declared, count);
        if 0 <= k < count && classes[k].id != declared && classes[k].ancestors@.contains(declared) {
            let entry = ClassRef { id: classes[k].id, name: classes[k].name };
            if k < count - 1 {
                let i = choose|i: int| 0 <= i < before.len() && before[i] == entry;
                assert(all[i] == entry);
            } else {
                assert(all[all.len() - 1] == entry);
            }
        }
        if 0 <= k < all.len() {
            if k < before.len() {
                assert(all[k] == before[k]);
                let i = choose|i: int|
                    0 <= i < count - 1 && (#[trigger] classes[i]).id == before[k].id
                        && classes[i].name == before[k].name && classes[i].id != declared
                        && classes[i].ancestors@.contains(declared);
                assert(classes[i].id == all[k].id);
            } else {
                assert(classes[count - 1].id == all[k].id);
            }
        }
    }
}

/// A parameter of a class type is specialized for exactly the classes that inherit from
/// that class, itself not among them.
pub proof fn a_class_parameter_is_specialized_for_its_subclasses(
    classes: Seq<ClassInfo>,
    declared: StructId,
    k: int,
)
    ensures
        0 <= k < classes.len() && classes[k].id != declared && classes[k].ancestors@.contains(
            declared,
        ) ==> subclasses_of(classes, declared, classes.len() as int).contains(
            ClassRef { id: classes[k].id, name: classes[k].name },
        ),
        0 <= k < subclasses_of(classes, declared, classes.len() as int).len() ==> exists|i: int|
            0 <= i < classes.len() && (#[trigger] classes[i]).id == subclasses_of(
                classes,
                declared,
                classes.len() as int,
            )[k].id && classes[i].id != declared && classes[i].ancestors@.contains(declared),
{
    lemma_subclasses(classes, declared, classes.len() as int, k);
}

proof fn lemma_choices(classes: Seq<ClassInfo>, params: Seq<ParamDecl>, count: int, k: int)
    requires
        0 <= count <= params.len() <= usize::MAX,
    ensures
        0 <= k < count ==> (params[k].class matches Some(declared) ==> (subclasses_of(
            classes,
            declared,
            classes.len() as int,
        ).len() > 0 ==> choices_of(classes, params, count).contains(
            (k as usize, subclasses_of(classes, declared, classes.len() as int)),
        ))),
        0 <= k < choices_of(classes, params, count).len() ==> choices_of(
            classes,
            params,
            count,
        )[k].0 < count && (params[choices_of(classes, params, count)[k].0 as int].class matches Some(
            declared,
        ) && choices_of(classes, params, count)[k].1 == subclasses_of(
            classes,
            declared,
            classes.len() as int,
        )) && choices_of(classes, params, count)[k].1.len() > 0,
    decreases count,
{
    if count > 0 {
        lemma_choices(classes, params, count - 1, k);
        let before = choices_of(classes, params, count - 1);
        let all = choices_of(classes, params, count);
        if 0 <= k < count {
            if let Some(declared) = params[k].class {
                let entry = (k as usize, subclasses_of(classes, declared, classes.len() as int));
                if entry.1.len() > 0 {
                    if k < count - 1 {
                        let i = choose|i: int| 0 <= i < before.len() && before[i] == entry;
                        assert(all[i] == entry);
                    } else {
                        assert(all[all.len() - 1] == entry);
                    }
                }
            }
        }
        if 0 <= k < all.len() && k < before.len() {
            assert(all[k] == before[k]);
        }
    }
}

/// A callable's choices are its parameters of a class type that some class inherits from,
/// each with all those classes, and no others.
pub proof fn every_class_parameter_is_a_choice(
    classes: Seq<ClassInfo>,
    params: Seq<ParamDecl>,
    k: int,
)
    requires
        params.len() <= usize::MAX,
        0 <= k < params.len(),
    ensures
        ({
            let choices = choices_of(classes, params, params.len() as int);
            &&& params[k].class matches Some(declared) ==> (subclasses_of(
                classes,
                declared,
                classes.len() as int,
            ).len() > 0 ==> choices.contains(
                (k as usize, subclasses_of(classes, declared, classes.len() as int)),
            ))
            &&& params[k].class is None ==> forall|i: int|
                0 <= i < choices.len() ==> (#[trigger] choices[i]).0 != k
        }),
{
    let choices = choices_of(classes, params, params.len() as int);
    lemma_choices(classes, params, params.len() as int, k);
    if params[k].class is None {
        assert forall|i: int| 0 <= i < choices.len() implies (#[trigger] choices[i]).0 != k by {
            lemma_choices(classes, params, params.len() as int, i);
        }
    }
}

/// A callable is copied for every choice but that of leaving every parameter as it is, and
/// for none at all where there are more than the limit.
pub proof fn every_choice_gets_a_copy(choices: Seq<(usize, Seq<ClassRef>)>, choice: Choice)
    ensures
        choices.len() > 0 && combined(choices, choices.len() as int).len() <= SPECIALIZATION_LIMIT
            && possible(choices, choices.len() as int, choice) && choice.len() > 0
            ==> specializations(choices).contains(choice),
        specializations(choices).contains(choice) ==> possible(
            choices,
            choices.len() as int,
            choice,
        ),
        choices.len() == 0 ==> specializations(choices).len() == 0,
        combined(choices, choices.len() as int).len() > SPECIALIZATION_LIMIT ==> specializations(
            choices,
        ).len() == 0,
{
    let count = choices.len() as int;
    let all = combined(choices, count);
    combinations_are_the_possible_choices(choices, count, choice);
    lemma_first_is_plain(choices, count);
    let rest = specializations(choices);
    if choices.len() > 0 && all.len() <= SPECIALIZATION_LIMIT && possible(choices, count, choice)
        && choice.len() > 0 {
        let i = choose|i: int| 0 <= i < all.len() && all[i] == choice;
        assert(i > 0);
        assert(rest[i - 1] == choice);
    }
    if rest.contains(choice) {
        let i = choose|i: int| 0 <= i < rest.len() && rest[i] == choice;
        assert(all[i + 1] == choice);
    }
}

proof fn lemma_first_is_plain(choices: Seq<(usize, Seq<ClassRef>)>, count: int)
    requires
        0 <= count <= choices.len(),
    ensures
        combined(choices, count).len() > 0,
        combined(choices, count)[0].len() == 0,
    decreases count,
{
    if count > 0 {
        lemma_first_is_plain(choices, count - 1);
        let before = combined(choices, count - 1);
        let (index, subclasses) = choices[count - 1];
        lemma_grown_first(before, index, subclasses, before.len() as int);
    }
}

proof fn lemma_grown_first(
    combinations: Seq<Choice>,
    index: usize,
    subclasses: Seq<ClassRef>,
    count: int,
)
    requires
        0 < count <= combinations.len(),
    ensures
        grown(combinations, index, subclasses, count).len() > 0,
        grown(combinations, index, subclasses, count)[0] == combinations[0],
    decreases count,
{
    let one = grown_one(combinations[count - 1], index, subclasses, subclasses.len() as int);
    lemma_grown_one_first(combinations[count - 1], index, subclasses, subclasses.len() as int);
    let before = grown(combinations, index, subclasses, count - 1);
    if count > 1 {
        lemma_grown_first(combinations, index, subclasses, count - 1);
        assert((before + one)[0] == before[0]);
    } else {
        assert(before.len() == 0);
        assert((before + one)[0] == one[0]);
    }
}

proof fn lemma_grown_one_first(
    existing: Choice,
    index: usize,
    subclasses: Seq<ClassRef>,
    count: int,
)
    requires
        0 <= count <= subclasses.len(),
    ensures
        grown_one(existing, index, subclasses, count).len() > 0,
        grown_one(existing, index, subclasses, count)[0] == existing,
    decreases count,
{
    if count > 0 {
        lemma_grown_one_first(existing, index, subclasses, count - 1);
    }
}

proof fn lemma_copies(
    classes: Seq<ClassInfo>,
    functions: Seq<FunctionDecl>,
    callables: Seq<Callable>,
    count: int,
    k: int,
    choice: Choice,
)
    requires
        0 <= k < count <= callables.len(),
        callables[k].specialize@.len() == 0,
        ({
            let params = functions[callables[k].function as int].params@;
            specializations(choices_of(classes, params, params.len() as int)).contains(choice)
        }),
    ensures
        copies_of(classes, functions, callables, count).contains((k, choice)),
    decreases count,
{
    let before = copies_of(classes, functions, callables, count - 1);
    let all = copies_of(classes, functions, callables, count);
    if k < count - 1 {
        lemma_copies(classes, functions, callables, count - 1, k, choice);
        let i = choose|i: int| 0 <= i < before.len() && before[i] == (k, choice);
        assert(all[i] == (k, choice));
    } else {
        let params = functions[callables[k].function as int].params@;
        let choices = specializations(choices_of(classes, params, params.len() as int));
        let i = choose|i: int| 0 <= i < choices.len() && choices[i] == choice;
        assert(all[before.len() + i] == (k, choice));
    }
}

/// A callable written as it is gets a copy for each way its class parameters can be given
/// subclasses, unless there are too many; and a copy differs from what it copies in the
/// classes of those parameters alone.
pub proof fn a_callable_is_copied_for_its_subclasses(
    classes: Seq<ClassInfo>,
    functions: Seq<FunctionDecl>,
    callables: Seq<Callable>,
    k: int,
    choice: Choice,
    copy: Callable,
)
    requires
        0 <= k < callables.len(),
        callables[k].specialize@.len() == 0,
    ensures
        ({
            let params = functions[callables[k].function as int].params@;
            let choices = choices_of(classes, params, params.len() as int);
            choices.len() > 0 && combined(choices, choices.len() as int).len()
                <= SPECIALIZATION_LIMIT && choice.len() > 0 && possible(
                choices,
                choices.len() as int,
                choice,
            ) ==> copies_of(classes, functions, callables, callables.len() as int).contains(
                (k, choice),
            )
        }),
        specialized_copy(copy, callables[k], choice) ==> copy.specialize@ == choice
            && copy.receiver == callables[k].receiver && copy.origin == callables[k].origin
            && copy.initializes == callables[k].initializes && copy.function
            == callables[k].function && copy.source == callables[k].source,
{
    let params = functions[callables[k].function as int].params@;
    let choices = choices_of(classes, params, params.len() as int);
    every_choice_gets_a_copy(choices, choice);
    if choices.len() > 0 && combined(choices, choices.len() as int).len() <= SPECIALIZATION_LIMIT
        && choice.len() > 0 && possible(choices, choices.len() as int, choice) {
        lemma_copies(classes, functions, callables, callables.len() as int, k, choice);
    }
}

} // verus!

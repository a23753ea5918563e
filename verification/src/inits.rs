//! Choosing how a construct-backed declaration is constructed.
//!
//! A declaration has one primary way to be built, its parenthesized header, and
//! any number of `init(…)` members, each another way, told apart by what it
//! takes. A construction names the overload set of all of them.

use vstd::prelude::*;

use crate::construction::{construct_input_slots, input_named, inputs, ConstructInput};
use crate::diagnostics::{Log, Problem};
use crate::families::{ConstructTable, MethodParam};
use crate::family_calls::{content_of, InitContent};
use crate::hir::FuncId;
use crate::names::Symbol;
use crate::source::{SourceId, Span};
use crate::syntax::TypeRefs;
use crate::ty::{FieldName, StructId, Type, TypeTable};

verus! {

/// The first parameter from `from` on, the last left out, that is written as
/// content.
pub open spec fn early_content(refs: &TypeRefs, params: Seq<MethodParam>, from: int) -> Option<int>
    decreases params.len() - from,
{
    if from < 0 || from >= params.len() - 1 {
        None
    } else if refs.meaning(params[from].ty).some {
        Some(from)
    } else {
        early_content(refs, params, from + 1)
    }
}

/// The parameter of a callable its trailing children fill: its last, where that is
/// written `some X` or `[some X]`. An `init` with another such parameter has none.
pub open spec fn content_param(
    refs: &TypeRefs,
    params: Seq<MethodParam>,
    is_init: bool,
) -> Option<InitContent> {
    if is_init && early_content(refs, params, 0) is Some {
        None
    } else {
        content_of(refs, params)
    }
}

/// Records which parameter of a callable its trailing children fill, reporting an
/// `init` that takes content anywhere but last: the children are written after
/// every argument. `source` is the callable's file, which is then the one being read.
pub fn record_init_content(
    refs: &TypeRefs,
    params: &Vec<MethodParam>,
    is_init: bool,
    source: SourceId,
    log: &mut Log,
) -> (content: Option<InitContent>)
    ensures
        content == content_param(refs, params@, is_init),
        final(log).source == source,
        match early_content(refs, params@, 0) {
            Some(at) if is_init => final(log).reported(
                old(log),
                source,
                params@[at].name_span,
                Problem::ContentNotLast,
            ),
            _ => final(log).diagnostics@ == old(log).diagnostics@,
        },
{
    log.source = source;
    let count: usize = params.len();
    if count == 0 {
        return None;
    }
    let mut i: usize = 0;
    while i < count - 1
        invariant
            count == params@.len(),
            count > 0,
            i <= count - 1,
            log.source == source,
            log.diagnostics@ == old(log).diagnostics@,
            early_content(refs, params@, 0) == early_content(refs, params@, i as int) || !is_init,
        decreases count - i,
    {
        if is_init && refs.resolve(params[i].ty).some {
            log.emit(params[i].name_span, Problem::ContentNotLast);
            return None;
        }
        i += 1;
    }
    let meaning = refs.resolve(params[count - 1].ty);
    if !meaning.some {
        return None;
    }
    let (element, list): (Type, bool) = match meaning.list_of {
        Some(element) => (element, true),
        None => (meaning.ty, false),
    };
    Some(InitContent { slot: count - 1, list, element })
}

/// The types of the inputs of a declaration's header, in order.
pub open spec fn header_types(list: Seq<ConstructInput>) -> Seq<Type> {
    list.map_values(|input: ConstructInput| input.ty)
}

/// Whether an `init` taking `params` takes exactly what the header takes.
///
/// A content parameter is reached by a trailing block rather than by an argument,
/// so an `init` that takes content collides only with a header that has a child
/// slot.
pub open spec fn shadows_header(
    types: &TypeTable,
    constructs: &ConstructTable,
    owner: StructId,
    params: Seq<Type>,
    content: bool,
) -> bool {
    let header = header_types(inputs(types, constructs, owner));
    if content {
        constructs.slots_of(owner).len() > 0 && params.len() > 0 && params.drop_last() == header
    } else {
        params == header
    }
}

fn same_as_header(list: &Vec<ConstructInput>, params: &Vec<Type>, count: usize) -> (res: bool)
    requires
        count <= params@.len(),
    ensures
        res == (params@.take(count as int) == header_types(list@)),
{
    if count != list.len() {
        assert(params@.take(count as int).len() == count);
        return false;
    }
    let mut i: usize = 0;
    while i < count
        invariant
            i <= count == list@.len(),
            count <= params@.len(),
            forall|k: int| 0 <= k < i ==> params@[k] == (#[trigger] list@[k]).ty,
        decreases count - i,
    {
        if params[i] != list[i].ty {
            assert(params@.take(count as int)[i as int] != header_types(list@)[i as int]);
            return false;
        }
        i += 1;
    }
    assert(params@.take(count as int) =~= header_types(list@));
    true
}

/// Reports an `init` that takes exactly what the parenthesized header takes: a
/// construction would fit both, and nothing in the source says which one it
/// meant.
pub fn refuse_init_shadowing_the_header(
    types: &TypeTable,
    constructs: &ConstructTable,
    owner: StructId,
    params: &Vec<Type>,
    content: Option<InitContent>,
    name_span: Span,
    log: &mut Log,
)
    requires
        types.fields(owner).len() <= u32::MAX,
        content is Some ==> params@.len() > 0,
    ensures
        final(log).source == old(log).source,
        if shadows_header(types, constructs, owner, params@, content is Some) {
            final(log).reported(
                old(log),
                old(log).source,
                name_span,
                (Problem::InitShadowsHeader { construct: owner }),
            )
        } else {
            final(log).quiet(old(log))
        },
{
    let header = construct_input_slots(types, constructs, owner);
    let count: usize = if content.is_some() {
        if constructs.child_slots(owner).len() == 0 {
            return ;
        }
        params.len() - 1
    } else {
        params.len()
    };
    assert(params@.take(params@.len() as int) =~= params@);
    assert(content is Some ==> params@.take(count as int) =~= params@.drop_last());
    if same_as_header(&header, params, count) {
        log.emit(name_span, Problem::InitShadowsHeader { construct: owner });
    }
}

/// How badly arguments fit one way of constructing: how many of them are
/// converted, then how many inputs take their defaults.
#[derive(Clone, Copy, PartialEq, Eq, Structural, Debug)]
pub struct Score {
    pub conversions: u32,
    pub defaulted: u32,
}

impl Score {
    /// Whether this fit is no worse than `other`.
    pub open spec fn at_most(self, other: Score) -> bool {
        self.conversions < other.conversions || (self.conversions == other.conversions
            && self.defaulted <= other.defaulted)
    }

    /// Whether this fit is no worse than `other`.
    pub fn no_worse(self, other: Score) -> (res: bool)
        ensures
            res == self.at_most(other),
    {
        self.conversions < other.conversions || (self.conversions == other.conversions
            && self.defaulted <= other.defaulted)
    }
}

/// How one construction site is resolved.
#[derive(Clone, Copy, PartialEq, Eq, Structural, Debug)]
pub enum Construction {
    /// The parenthesized header: fill the stored members directly.
    Primary,
    /// One `init(…)`: call it and let its body construct.
    Init(FuncId),
}

/// Which of the first `count` inits fits best: the first of those nothing among
/// them fits better than.
pub open spec fn best_init(inits: Seq<(FuncId, Option<Score>)>, count: int) -> Option<(FuncId, Score)>
    decreases count,
{
    if count <= 0 {
        None
    } else {
        let (id, score) = inits[count - 1];
        match (best_init(inits, count - 1), score) {
            (best, None) => best,
            (None, Some(score)) => Some((id, score)),
            (Some((best, held)), Some(score)) => if held.at_most(score) {
                Some((best, held))
            } else {
                Some((id, score))
            },
        }
    }
}

/// Which way of constructing fits best. The header wins a tie, and carries the
/// diagnostics where nothing fits, because it is what the declaration says it
/// takes.
pub open spec fn picked(primary: Option<Score>, inits: Seq<(FuncId, Option<Score>)>) -> Construction {
    match (primary, best_init(inits, inits.len() as int)) {
        (Some(header), Some((init, score))) => if header.at_most(score) {
            Construction::Primary
        } else {
            Construction::Init(init)
        },
        (None, Some((init, _))) => Construction::Init(init),
        (_, None) => Construction::Primary,
    }
}

/// Picks the way of constructing a declaration its arguments mean, both kinds
/// scored on one scale.
pub fn pick_construction(primary: Option<Score>, inits: &Vec<(FuncId, Option<Score>)>) -> (chosen:
    Construction)
    ensures
        chosen == picked(primary, inits@),
{
    let mut best: Option<(FuncId, Score)> = None;
    let mut i: usize = 0;
    while i < inits.len()
        invariant
            i <= inits@.len(),
            best == best_init(inits@, i as int),
        decreases inits@.len() - i,
    {
        let (id, score): (FuncId, Option<Score>) = inits[i];
        if let Some(score) = score {
            match best {
                Some((_, held)) => {
                    if !held.no_worse(score) {
                        best = Some((id, score));
                    }
                },
                None => {
                    best = Some((id, score));
                },
            }
        }
        i += 1;
    }
    match (primary, best) {
        (Some(header), Some((init, score))) => if header.no_worse(score) {
            Construction::Primary
        } else {
            Construction::Init(init)
        },
        (None, Some((init, _))) => Construction::Init(init),
        (_, None) => Construction::Primary,
    }
}

/// What an init is scored on: the arguments' types, and where there are trailing
/// children its content's, which has to follow every one of them.
pub open spec fn scored_types(
    actual: Seq<Type>,
    children: bool,
    content: Option<InitContent>,
) -> Option<Seq<Type>> {
    if children {
        match content {
            Some(content) => if content.slot == actual.len() {
                Some(actual.push(content.element))
            } else {
                None
            },
            None => None,
        }
    } else {
        Some(actual)
    }
}

/// What an init is scored on, where it can mean this construction at all.
pub fn init_argument_types(
    actual: &Vec<Type>,
    children: bool,
    content: Option<InitContent>,
) -> (types: Option<Vec<Type>>)
    ensures
        match types {
            Some(types) => scored_types(actual@, children, content) == Some(types@),
            None => scored_types(actual@, children, content) is None,
        },
{
    let mut types = crate::lists::copied(actual);
    if children {
        match content {
            Some(content) => {
                if content.slot != types.len() {
                    return None;
                }
                types.push(content.element);
            },
            None => {
                return None;
            },
        }
    }
    Some(types)
}

/// The inputs after the first `count` arguments were placed, and how many were
/// positional; `None` where one of them fits no input that is still free.
pub open spec fn placed_types(
    list: Seq<ConstructInput>,
    labels: Seq<Option<Symbol>>,
    actual: Seq<Type>,
    count: int,
) -> Option<(Seq<Option<Type>>, int)>
    decreases count,
{
    if count <= 0 {
        Some((Seq::new(list.len(), |i: int| None), 0))
    } else {
        match placed_types(list, labels, actual, count - 1) {
            None => None,
            Some((filled, next)) => {
                let slot: Option<int> = match labels[count - 1] {
                    Some(label) => input_named(list, label, 0),
                    None => Some(next),
                };
                match slot {
                    Some(slot) => if slot < filled.len() && filled[slot] is None {
                        Some(
                            (
                                filled.update(slot, Some(actual[count - 1])),
                                if labels[count - 1] is None {
                                    next + 1
                                } else {
                                    next
                                },
                            ),
                        )
                    } else {
                        None
                    },
                    None => None,
                }
            },
        }
    }
}

/// The score of the first `count` inputs: each filled one has to be reached by
/// what fills it, and each other has to have a default.
pub open spec fn inputs_scored(
    list: Seq<ConstructInput>,
    filled: Seq<Option<Type>>,
    reaches: Seq<(Type, Type)>,
    defaulted: Seq<bool>,
    count: int,
) -> Option<(int, int)>
    decreases count,
{
    if count <= 0 {
        Some((0, 0))
    } else {
        match inputs_scored(list, filled, reaches, defaulted, count - 1) {
            None => None,
            Some((conversions, defaults)) => match filled[count - 1] {
                Some(ty) => if !reaches.contains((ty, list[count - 1].ty)) {
                    None
                } else if ty != list[count - 1].ty {
                    Some((conversions + 1, defaults))
                } else {
                    Some((conversions, defaults))
                },
                None => {
                    let at = list[count - 1].field_index as int;
                    if at < defaulted.len() && defaulted[at] {
                        Some((conversions, defaults + 1))
                    } else {
                        None
                    }
                },
            },
        }
    }
}

/// How badly arguments fit the header, if they do: an argument with a label binds
/// to the input of that name rather than to its written place, because an input
/// is a member.
pub open spec fn header_score(
    list: Seq<ConstructInput>,
    labels: Seq<Option<Symbol>>,
    actual: Seq<Type>,
    reaches: Seq<(Type, Type)>,
    defaulted: Seq<bool>,
) -> Option<Score> {
    match placed_types(list, labels, actual, labels.len() as int) {
        None => None,
        Some((filled, _)) => match inputs_scored(
            list,
            filled,
            reaches,
            defaulted,
            list.len() as int,
        ) {
            Some((conversions, defaults)) => Some(
                Score { conversions: conversions as u32, defaulted: defaults as u32 },
            ),
            None => None,
        },
    }
}

fn find_label(list: &Vec<ConstructInput>, label: Symbol) -> (found: Option<usize>)
    ensures
        match found {
            Some(i) => input_named(list@, label, 0) == Some(i as int) && i < list@.len(),
            None => input_named(list@, label, 0) is None,
        },
{
    let mut i: usize = 0;
    while i < list.len()
        invariant
            i <= list@.len(),
            input_named(list@, label, 0) == input_named(list@, label, i as int),
        decreases list@.len() - i,
    {
        if list[i].name == FieldName::Plain(label) {
            return Some(i);
        }
        i += 1;
    }
    None
}

fn pair_listed(pairs: &Vec<(Type, Type)>, from: Type, to: Type) -> (res: bool)
    ensures
        res == pairs@.contains((from, to)),
{
    let mut i: usize = 0;
    while i < pairs.len()
        invariant
            i <= pairs@.len(),
            forall|k: int| 0 <= k < i ==> pairs@[k] != (from, to),
        decreases pairs@.len() - i,
    {
        let (a, b): (Type, Type) = pairs[i];
        if a == from && b == to {
            assert(pairs@[i as int] == (from, to));
            return true;
        }
        i += 1;
    }
    false
}

/// How badly arguments fit the declaration's parenthesized header, or `None` where
/// they do not fit at all.
///
/// `reaches` lists the pairs of an argument's type and a parameter's that it can be
/// given to; `defaulted` says which fields have a default.
pub fn primary_score(
    list: &Vec<ConstructInput>,
    labels: &Vec<Option<Symbol>>,
    actual: &Vec<Type>,
    reaches: &Vec<(Type, Type)>,
    defaulted: &Vec<bool>,
) -> (score: Option<Score>)
    requires
        actual@.len() == labels@.len(),
        list@.len() <= u32::MAX,
    ensures
        score == header_score(list@, labels@, actual@, reaches@, defaulted@),
{
    let mut filled: Vec<Option<Type>> = Vec::new();
    let mut i: usize = 0;
    while i < list.len()
        invariant
            i <= list@.len(),
            filled@ == Seq::new(i as nat, |k: int| None::<Type>),
        decreases list@.len() - i,
    {
        filled.push(None);
        i += 1;
        assert(filled@ =~= Seq::new(i as nat, |k: int| None::<Type>));
    }
    let mut next: usize = 0;
    let mut a: usize = 0;
    while a < labels.len()
        invariant
            a <= labels@.len(),
            next <= a,
            actual@.len() == labels@.len(),
            filled@.len() == list@.len(),
            placed_types(list@, labels@, actual@, a as int) == Some((filled@, next as int)),
        decreases labels@.len() - a,
    {
        let slot: usize = match labels[a] {
            Some(label) => match find_label(list, label) {
                Some(slot) => slot,
                None => {
                    proof {
                        lemma_refused(list@, labels@, actual@, a + 1, labels@.len() as int);
                    }
                    return None;
                },
            },
            None => {
                let slot: usize = next;
                next = next + 1;
                slot
            },
        };
        if slot >= filled.len() || filled[slot].is_some() {
            proof {
                lemma_refused(list@, labels@, actual@, a + 1, labels@.len() as int);
            }
            return None;
        }
        filled[slot] = Some(actual[a]);
        a += 1;
    }
    let mut conversions: u32 = 0;
    let mut defaults: u32 = 0;
    let mut k: usize = 0;
    while k < list.len()
        invariant
            k <= list@.len() <= u32::MAX,
            filled@.len() == list@.len(),
            conversions + defaults <= k,
            inputs_scored(list@, filled@, reaches@, defaulted@, k as int) == Some(
                (conversions as int, defaults as int),
            ),
            placed_types(list@, labels@, actual@, labels@.len() as int) matches Some((at, _))
                && at == filled@,
        decreases list@.len() - k,
    {
        match filled[k] {
            Some(ty) => {
                if !pair_listed(reaches, ty, list[k].ty) {
                    proof {
                        lemma_unscored(
                            list@,
                            filled@,
                            reaches@,
                            defaulted@,
                            k + 1,
                            list@.len() as int,
                        );
                    }
                    return None;
                }
                if ty != list[k].ty {
                    conversions = conversions + 1;
                }
            },
            None => {
                let at: usize = list[k].field_index as usize;
                if at >= defaulted.len() || !defaulted[at] {
                    proof {
                        lemma_unscored(
                            list@,
                            filled@,
                            reaches@,
                            defaulted@,
                            k + 1,
                            list@.len() as int,
                        );
                    }
                    return None;
                }
                defaults = defaults + 1;
            },
        }
        k += 1;
    }
    Some(Score { conversions, defaulted: defaults })
}

proof fn lemma_refused(
    list: Seq<ConstructInput>,
    labels: Seq<Option<Symbol>>,
    actual: Seq<Type>,
    at: int,
    count: int,
)
    requires
        placed_types(list, labels, actual, at) is None,
        at <= count,
    ensures
        placed_types(list, labels, actual, count) is None,
    decreases count - at,
{
    if at < count {
        lemma_refused(list, labels, actual, at, count - 1);
    }
}

proof fn lemma_unscored(
    list: Seq<ConstructInput>,
    filled: Seq<Option<Type>>,
    reaches: Seq<(Type, Type)>,
    defaulted: Seq<bool>,
    at: int,
    count: int,
)
    requires
        inputs_scored(list, filled, reaches, defaulted, at) is None,
        at <= count,
    ensures
        inputs_scored(list, filled, reaches, defaulted, count) is None,
    decreases count - at,
{
    if at < count {
        lemma_unscored(list, filled, reaches, defaulted, at, count - 1);
    }
}

/// Whether the header can take trailing children: only one with a child slot can.
pub fn header_takes_children(constructs: &ConstructTable, id: StructId, children: bool) -> (res: bool)
    ensures
        res == (!children || constructs.slots_of(id).len() > 0),
{
    !children || constructs.child_slots(id).len() > 0
}

/// Nothing that fits is passed over for something that fits worse, and the header
/// is chosen over every init it fits as well as.
pub proof fn the_best_fit_is_picked(
    primary: Option<Score>,
    inits: Seq<(FuncId, Option<Score>)>,
    i: int,
)
    requires
        0 <= i < inits.len(),
        inits[i].1 is Some,
    ensures
        match picked(primary, inits) {
            Construction::Primary => primary is Some && primary->0.at_most(inits[i].1->0),
            Construction::Init(chosen) => exists|k: int|
                0 <= k < inits.len() && (#[trigger] inits[k]).0 == chosen && inits[k].1 is Some
                    && inits[k].1->0.at_most(inits[i].1->0) && (primary matches Some(header)
                    ==> !header.at_most(inits[k].1->0)),
        },
{
    let k = lemma_best(inits, inits.len() as int, i);
    assert(inits[k].0 == (best_init(inits, inits.len() as int)->0).0);
}

proof fn lemma_best(inits: Seq<(FuncId, Option<Score>)>, count: int, i: int) -> (k: int)
    requires
        0 <= i < count <= inits.len(),
        inits[i].1 is Some,
    ensures
        0 <= k < count,
        best_init(inits, count) == Some((inits[k].0, inits[k].1->0)),
        inits[k].1 is Some,
        inits[k].1->0.at_most(inits[i].1->0),
    decreases count,
{
    if i == count - 1 {
        match best_init(inits, count - 1) {
            None => i,
            Some((_, held)) => {
                let j = lemma_best_somewhere(inits, count - 1);
                if held.at_most(inits[i].1->0) {
                    j
                } else {
                    i
                }
            },
        }
    } else {
        let k = lemma_best(inits, count - 1, i);
        match inits[count - 1].1 {
            Some(score) => if inits[k].1->0.at_most(score) {
                k
            } else {
                count - 1
            },
            None => k,
        }
    }
}

proof fn lemma_best_somewhere(inits: Seq<(FuncId, Option<Score>)>, count: int) -> (k: int)
    requires
        0 <= count <= inits.len(),
        best_init(inits, count) is Some,
    ensures
        0 <= k < count,
        inits[k].1 is Some,
        best_init(inits, count) == Some((inits[k].0, inits[k].1->0)),
    decreases count,
{
    let (id, score) = inits[count - 1];
    match (best_init(inits, count - 1), score) {
        (Some((_, held)), Some(score)) => if held.at_most(score) {
            lemma_best_somewhere(inits, count - 1)
        } else {
            count - 1
        },
        (Some(_), None) => lemma_best_somewhere(inits, count - 1),
        _ => count - 1,
    }
}

/// One fit is no worse than another exactly if it converts fewer arguments, or as many
/// and takes no more defaults.
pub proof fn fewer_conversions_fit_better(a: Score, b: Score)
    ensures
        a.conversions < b.conversions ==> a.at_most(b) && !b.at_most(a),
        a.conversions == b.conversions && a.defaulted < b.defaulted ==> a.at_most(b) && !b.at_most(
            a,
        ),
        a.at_most(b) && b.at_most(a) ==> a == b,
        a.at_most(a),
{
}

proof fn lemma_best_none(inits: Seq<(FuncId, Option<Score>)>, count: int)
    requires
        0 <= count <= inits.len(),
        forall|i: int| 0 <= i < count ==> (#[trigger] inits[i]).1 is None,
    ensures
        best_init(inits, count) is None,
    decreases count,
{
    if count > 0 {
        lemma_best_none(inits, count - 1);
    }
}

/// Where no init fits, and where the header fits and every init that fits does worse, the
/// header constructs; an init that fits better than the header and than every other init
/// is called.
pub proof fn a_strictly_better_init_is_called(
    primary: Option<Score>,
    inits: Seq<(FuncId, Option<Score>)>,
    i: int,
)
    requires
        0 <= i < inits.len(),
    ensures
        (forall|k: int| 0 <= k < inits.len() ==> (#[trigger] inits[k]).1 is None) ==> picked(
            primary,
            inits,
        ) == Construction::Primary,
        primary is Some && (forall|k: int|
            0 <= k < inits.len() ==> ((#[trigger] inits[k]).1 matches Some(score)
                ==> primary->0.at_most(score))) ==> picked(primary, inits) == Construction::Primary,
        inits[i].1 is Some && (primary matches Some(header) ==> !header.at_most(inits[i].1->0)) && (
        forall|k: int|
            0 <= k < inits.len() && k != i ==> ((#[trigger] inits[k]).1 matches Some(score)
                ==> !score.at_most(inits[i].1->0))) ==> picked(primary, inits)
            == Construction::Init(inits[i].0),
{
    if forall|k: int| 0 <= k < inits.len() ==> (#[trigger] inits[k]).1 is None {
        lemma_best_none(inits, inits.len() as int);
    } else {
        lemma_best_among(inits, inits.len() as int);
        if inits[i].1 is Some {
            the_best_fit_is_picked(primary, inits, i);
        }
        if let Some((chosen, score)) = best_init(inits, inits.len() as int) {
            let k = choose|k: int|
                0 <= k < inits.len() && #[trigger] inits[k] == (chosen, Some(score));
            assert(inits[k].1 == Some(score));
        }
    }
}

proof fn lemma_best_among(inits: Seq<(FuncId, Option<Score>)>, count: int)
    requires
        0 <= count <= inits.len(),
    ensures
        best_init(inits, count) matches Some((id, score)) ==> exists|k: int|
            0 <= k < count && #[trigger] inits[k] == (id, Some(score)),
        best_init(inits, count) is None ==> forall|k: int|
            0 <= k < count ==> (#[trigger] inits[k]).1 is None,
        forall|k: int|
            0 <= k < count ==> ((#[trigger] inits[k]).1 matches Some(other) ==> best_init(
                inits,
                count,
            ) is Some && (best_init(inits, count)->0).1.at_most(other)),
    decreases count,
{
    if count > 0 {
        lemma_best_among(inits, count - 1);
        let (id, score) = inits[count - 1];
        if let Some((best, held)) = best_init(inits, count) {
            if score == Some(held) && id == best {
                assert(inits[count - 1] == (best, Some(held)));
            }
        }
    }
}

proof fn lemma_early_content(refs: &TypeRefs, params: Seq<MethodParam>, from: int)
    requires
        0 <= from,
    ensures
        early_content(refs, params, from) is Some <==> exists|k: int|
            from <= k < params.len() - 1 && refs.meaning((#[trigger] params[k]).ty).some,
    decreases params.len() - from,
{
    if from < params.len() - 1 {
        lemma_early_content(refs, params, from + 1);
        if refs.meaning(params[from].ty).some {
            assert(refs.meaning(params[from].ty).some);
        }
    }
}

/// Trailing children fill the last parameter of a callable, where it is written `some X`,
/// one child, or `[some X]`, a list of them; no other callable takes children, and an
/// `init` with such a parameter before its last takes none.
pub proof fn children_fill_the_last_parameter(
    refs: &TypeRefs,
    params: Seq<MethodParam>,
    is_init: bool,
)
    requires
        params.len() <= usize::MAX,
    ensures
        ({
            let early = exists|k: int|
                0 <= k < params.len() - 1 && refs.meaning((#[trigger] params[k]).ty).some;
            let content = content_param(refs, params, is_init);
            let meaning = refs.meaning(params.last().ty);
            &&& is_init && early ==> content is None
            &&& params.len() == 0 ==> content is None
            &&& params.len() > 0 && !meaning.some ==> content is None
            &&& params.len() > 0 && meaning.some && !(is_init && early) ==> content is Some
                && content->0.slot == params.len() - 1 && (content->0.list <==> meaning.list_of
                is Some) && (meaning.list_of is None ==> content->0.element == meaning.ty) && (
            meaning.list_of is Some ==> content->0.element == meaning.list_of->0)
        }),
{
    lemma_early_content(refs, params, 0);
}

/// An `init` shadows the header exactly if it takes, besides its content, the header's
/// inputs one for one; one with content shadows only the header of a declaration that
/// has a child slot.
pub proof fn an_init_shadows_the_same_inputs(
    types: &TypeTable,
    constructs: &ConstructTable,
    owner: StructId,
    params: Seq<Type>,
    content: bool,
)
    ensures
        ({
            let list = inputs(types, constructs, owner);
            let given = if content {
                params.len() - 1
            } else {
                params.len() as int
            };
            shadows_header(types, constructs, owner, params, content) <==> {
                &&& content ==> constructs.slots_of(owner).len() > 0 && params.len() > 0
                &&& given == list.len()
                &&& forall|k: int|
                    0 <= k < list.len() ==> params[k] == (#[trigger] list[k]).ty
            }
        }),
{
    let list = inputs(types, constructs, owner);
    let header = header_types(list);
    let given = if content {
        params.len() - 1
    } else {
        params.len() as int
    };
    if content && params.len() > 0 {
        assert(params.drop_last().len() == given);
        if given == list.len() && forall|k: int|
            0 <= k < list.len() ==> params[k] == (#[trigger] list[k]).ty {
            assert forall|k: int| 0 <= k < header.len() implies params.drop_last()[k]
                == #[trigger] header[k] by {
                assert(params[k] == list[k].ty);
            }
            assert(params.drop_last() =~= header);
        }
        if params.drop_last() == header {
            assert forall|k: int| 0 <= k < list.len() implies params[k] == (
            #[trigger] list[k]).ty by {
                assert(params.drop_last()[k] == header[k]);
            }
        }
    } else if !content {
        if given == list.len() && forall|k: int|
            0 <= k < list.len() ==> params[k] == (#[trigger] list[k]).ty {
            assert forall|k: int| 0 <= k < header.len() implies params[k]
                == #[trigger] header[k] by {
                assert(params[k] == list[k].ty);
            }
            assert(params =~= header);
        }
        if params == header {
            assert forall|k: int| 0 <= k < list.len() implies params[k] == (
            #[trigger] list[k]).ty by {
                assert(params[k] == header[k]);
            }
        }
    }
}

proof fn lemma_inputs_scored(
    list: Seq<ConstructInput>,
    filled: Seq<Option<Type>>,
    reaches: Seq<(Type, Type)>,
    defaulted: Seq<bool>,
    count: int,
)
    requires
        0 <= count <= list.len(),
        filled.len() == list.len(),
    ensures
        inputs_scored(list, filled, reaches, defaulted, count) is Some <==> forall|k: int|
            0 <= k < count ==> {
                &&& filled[k] matches Some(ty) ==> reaches.contains((ty, (#[trigger] list[k]).ty))
                &&& filled[k] is None ==> list[k].field_index < defaulted.len()
                    && defaulted[list[k].field_index as int]
            },
        inputs_scored(list, filled, reaches, defaulted, count) matches Some((conversions, defaults))
            ==> 0 <= conversions <= count && 0 <= defaults <= count,
        inputs_scored(list, filled, reaches, defaulted, count) matches Some((conversions, _)) ==> (
        conversions == 0 <==> forall|k: int|
            0 <= k < count ==> (filled[k] is None || filled[k] == Some((#[trigger] list[k]).ty))),
        inputs_scored(list, filled, reaches, defaulted, count) matches Some((_, defaults)) ==> (
        defaults == 0 <==> forall|k: int| 0 <= k < count ==> (#[trigger] filled[k]) is Some),
    decreases count,
{
    if count > 0 {
        lemma_inputs_scored(list, filled, reaches, defaulted, count - 1);
        let at = list[count - 1];
        assert(filled[count - 1] == filled[count - 1]);
        if inputs_scored(list, filled, reaches, defaulted, count) is None {
            if inputs_scored(list, filled, reaches, defaulted, count - 1) is Some {
                assert(at == list[count - 1]);
            }
        }
    }
}

/// Arguments given by position fit the header exactly if there is an input for each, each
/// reaches its input's type, and every input after them has a default. They fit it with
/// nothing converted exactly if each is of its input's own type, and with no default taken
/// exactly if there is one for every input.
pub proof fn positional_arguments_score_against_their_inputs(
    list: Seq<ConstructInput>,
    labels: Seq<Option<Symbol>>,
    actual: Seq<Type>,
    reaches: Seq<(Type, Type)>,
    defaulted: Seq<bool>,
)
    requires
        actual.len() == labels.len(),
        list.len() <= u32::MAX,
        forall|i: int| 0 <= i < labels.len() ==> (#[trigger] labels[i]) is None,
    ensures
        header_score(list, labels, actual, reaches, defaulted) is Some <==> {
            &&& actual.len() <= list.len()
            &&& forall|k: int|
                0 <= k < actual.len() ==> reaches.contains((#[trigger] actual[k], list[k].ty))
            &&& forall|k: int|
                actual.len() <= k < list.len() ==> (#[trigger] list[k]).field_index
                    < defaulted.len() && defaulted[list[k].field_index as int]
        },
        header_score(list, labels, actual, reaches, defaulted) matches Some(score) ==> {
            &&& score.conversions == 0 <==> forall|k: int|
                0 <= k < actual.len() ==> #[trigger] actual[k] == list[k].ty
            &&& score.defaulted == 0 <==> actual.len() == list.len()
        },
{
    lemma_placed_in_order(list, labels, actual, labels.len() as int);
    if actual.len() <= list.len() {
        let placed = placed_types(list, labels, actual, labels.len() as int)->0;
        let filled = placed.0;
        lemma_inputs_scored(list, filled, reaches, defaulted, list.len() as int);
        let scored = inputs_scored(list, filled, reaches, defaulted, list.len() as int);
        if scored is Some {
            assert forall|k: int| 0 <= k < actual.len() implies reaches.contains(
                (#[trigger] actual[k], list[k].ty),
            ) by {
                assert(filled[k] == Some(actual[k]));
                assert(reaches.contains((filled[k]->0, list[k].ty)));
            }
            if forall|k: int| 0 <= k < list.len() ==> (#[trigger] filled[k]) is Some {
                if actual.len() < list.len() {
                    assert(filled[actual.len() as int] is None);
                }
            }
            if forall|k: int| 0 <= k < actual.len() ==> #[trigger] actual[k] == list[k].ty {
                assert forall|k: int| 0 <= k < list.len() implies (filled[k] is None || filled[k]
                    == Some((#[trigger] list[k]).ty)) by {
                    if k < actual.len() {
                        assert(actual[k] == list[k].ty);
                    }
                }
            }
            if forall|k: int|
                0 <= k < list.len() ==> (filled[k] is None || filled[k] == Some(
                    (#[trigger] list[k]).ty,
                )) {
                assert forall|k: int| 0 <= k < actual.len() implies #[trigger] actual[k]
                    == list[k].ty by {
                    assert(filled[k] == Some(list[k].ty));
                }
            }
        }
    }
}

proof fn lemma_placed_in_order(
    list: Seq<ConstructInput>,
    labels: Seq<Option<Symbol>>,
    actual: Seq<Type>,
    count: int,
)
    requires
        0 <= count <= labels.len(),
        actual.len() == labels.len(),
        forall|i: int| 0 <= i < labels.len() ==> (#[trigger] labels[i]) is None,
    ensures
        placed_types(list, labels, actual, count) is Some <==> count <= list.len(),
        placed_types(list, labels, actual, count) matches Some((filled, next)) ==> next == count
            && filled.len() == list.len() && (forall|k: int|
            0 <= k < count ==> #[trigger] filled[k] == Some(actual[k])) && (forall|k: int|
            count <= k < list.len() ==> (#[trigger] filled[k]) is None),
    decreases count,
{
    if count > 0 {
        lemma_placed_in_order(list, labels, actual, count - 1);
        assert(labels[count - 1] is None);
    }
}

/// An `init` is scored against the arguments written and, where children were, what its
/// content parameter holds behind them, if that parameter comes next; it takes no children
/// otherwise.
pub proof fn children_are_scored_behind_the_arguments(
    actual: Seq<Type>,
    children: bool,
    content: Option<InitContent>,
    k: int,
)
    ensures
        !children ==> scored_types(actual, children, content) == Some(actual),
        children && content is None ==> scored_types(actual, children, content) is None,
        children ==> (content matches Some(found) ==> (found.slot != actual.len() ==> scored_types(
            actual,
            children,
            content,
        ) is None)),
        children ==> (content matches Some(found) ==> (found.slot == actual.len() ==> (scored_types(
            actual,
            children,
            content,
        ) matches Some(types) && types.len() == actual.len() + 1 && types.last() == found.element
            && (0 <= k < actual.len() ==> types[k] == actual[k])))),
{
}

} // verus!

//! Spelling a message: the text of its pieces, one after another.

use vstd::prelude::*;
use vstd::string::StringExecFns;

use crate::callables::{CallName, NameForm};
use crate::diagnostics::{CalleeName, NameClash, Problem};
use crate::hir::{FuncId, FunctionName};
use crate::messages::Piece;
use crate::names::{Names, Symbol};
use crate::signatures::{FuncSig, SigTable};
use crate::ty::{FieldName, OwnershipMode, Type};
use crate::updates::{segments, split_label};

verus! {

/// What is needed to spell a message: what every name spells, how every type is
/// spelled, and the signatures functions are spelled from.
pub struct Spelling<'a> {
    pub names: &'a Names,
    /// The spelling of each type a message may speak of.
    pub types: &'a Vec<(Type, Symbol)>,
    /// The spelling that tells each type apart from every other.
    pub identities: &'a Vec<(Type, Symbol)>,
    pub sigs: &'a SigTable,
}

/// The digits of `n`, the greatest first.
pub open spec fn digits(n: nat) -> Seq<char>
    decreases n,
{
    if n < 10 {
        digit(n)
    } else {
        digits(n / 10) + digit(n % 10)
    }
}

/// One digit.
pub open spec fn digit(n: nat) -> Seq<char> {
    if n == 0 {
        "0"@
    } else if n == 1 {
        "1"@
    } else if n == 2 {
        "2"@
    } else if n == 3 {
        "3"@
    } else if n == 4 {
        "4"@
    } else if n == 5 {
        "5"@
    } else if n == 6 {
        "6"@
    } else if n == 7 {
        "7"@
    } else if n == 8 {
        "8"@
    } else {
        "9"@
    }
}

/// A number, its sign first.
pub open spec fn number(n: int) -> Seq<char> {
    if n < 0 {
        "-"@ + digits((-n) as nat)
    } else {
        digits(n as nat)
    }
}

fn append_digits(text: &mut String, n: u64)
    ensures
        final(text)@ == old(text)@ + digits(n as nat),
    decreases n,
{
    let ghost start = text@;
    if n >= 10 {
        append_digits(text, n / 10);
    }
    let last: u64 = n % 10;
    let shown: &str = if last == 0 {
        "0"
    } else if last == 1 {
        "1"
    } else if last == 2 {
        "2"
    } else if last == 3 {
        "3"
    } else if last == 4 {
        "4"
    } else if last == 5 {
        "5"
    } else if last == 6 {
        "6"
    } else if last == 7 {
        "7"
    } else if last == 8 {
        "8"
    } else {
        "9"
    };
    text.append(shown);
    assert(text@ =~= start + digits(n as nat));
}

fn append_number(text: &mut String, n: i64)
    ensures
        final(text)@ == old(text)@ + number(n as int),
{
    let ghost start = text@;
    if n < 0 {
        text.append("-");
        let size: u64 = if n == i64::MIN {
            9_223_372_036_854_775_808
        } else {
            (-n) as u64
        };
        append_digits(text, size);
        assert(text@ =~= start + ("-"@ + digits(size as nat)));
    } else {
        append_digits(text, n as u64);
    }
}

/// The spelling a table of spellings gives a type.
pub open spec fn spelling_in(rows: Seq<(Type, Symbol)>, ty: Type) -> Option<Symbol>
    decreases rows.len(),
{
    if rows.len() == 0 {
        None
    } else if rows[0].0 == ty {
        Some(rows[0].1)
    } else {
        spelling_in(rows.drop_first(), ty)
    }
}

/// The segments from `from` on of the first `count`, a dot between each two.
pub open spec fn dotted(parts: Seq<Seq<char>>, from: int, count: int) -> Seq<char>
    decreases count,
{
    if count <= from || count <= 0 {
        Seq::empty()
    } else {
        let before = dotted(parts, from, count - 1);
        if count - 1 > from {
            before + "."@ + parts[count - 1]
        } else {
            before + parts[count - 1]
        }
    }
}

/// What is left of a dotted path behind its first `from` segments.
pub open spec fn behind(path: Seq<char>, from: nat) -> Seq<char> {
    dotted(segments(path), from as int, segments(path).len() as int)
}

fn append_behind(text: &mut String, path: &str, from: usize)
    ensures
        final(text)@ == old(text)@ + behind(path@, from as nat),
{
    let parts = split_label(path);
    let ghost list = segments(path@);
    let ghost start = text@;
    if from >= parts.len() {
        assert(text@ =~= start + dotted(list, from as int, list.len() as int));
        return ;
    }
    let mut i: usize = from;
    assert(text@ =~= start + dotted(list, from as int, i as int));
    while i < parts.len()
        invariant
            from <= i <= parts@.len(),
            parts@.len() == list.len(),
            forall|k: int| 0 <= k < list.len() ==> (#[trigger] parts@[k])@ == list[k],
            text@ == start + dotted(list, from as int, i as int),
        decreases parts@.len() - i,
    {
        let ghost before = dotted(list, from as int, i as int);
        if i > from {
            text.append(".");
        }
        text.append(parts[i].as_str());
        assert(parts@[i as int]@ == list[i as int]);
        i += 1;
        assert(text@ =~= start + dotted(list, from as int, i as int));
    }
}

/// A text with every space underlined.
pub open spec fn underlined(text: Seq<char>) -> Seq<char> {
    text.map_values(
        |c: char|
            if c == ' ' {
                '_'
            } else {
                c
            },
    )
}

fn append_underlined(text: &mut String, more: &str)
    ensures
        final(text)@ == old(text)@ + underlined(more@),
{
    let ghost start = text@;
    let len: usize = more.unicode_len();
    let mut i: usize = 0;
    assert(text@ =~= start + underlined(more@).take(0));
    while i < len
        invariant
            i <= len,
            len == more@.len(),
            text@ == start + underlined(more@).take(i as int),
        decreases len - i,
    {
        if more.get_char(i) == ' ' {
            proof {
                reveal_strlit("_");
            }
            text.append("_");
        } else {
            text.append(more.substring_char(i, i + 1));
        }
        i += 1;
        assert(text@ =~= start + underlined(more@).take(i as int));
    }
    assert(underlined(more@).take(i as int) =~= underlined(more@));
}

/// How a member is known: its name and, between brackets, the types it takes as
/// they are written.
pub open spec fn member_key_text(name: Seq<char>, written: Seq<Seq<char>>) -> Seq<char> {
    name + "("@ + comma_joined(written) + ")"@
}

/// Texts with a comma between them.
pub open spec fn comma_joined(texts: Seq<Seq<char>>) -> Seq<char>
    decreases texts.len(),
{
    if texts.len() == 0 {
        ""@
    } else {
        comma_joined(texts.drop_last()) + (if texts.len() > 1 {
            ","@
        } else {
            ""@
        }) + texts.last()
    }
}

/// What each of the texts spells.
pub open spec fn texts_of(written: Seq<String>) -> Seq<Seq<char>> {
    written.map_values(|text: String| text@)
}

/// Spells what a class member is known by: its name together with what it takes,
/// because a name alone is no identity once names can be overloaded.
pub fn member_key(name: &str, written: &Vec<String>) -> (key: String)
    ensures
        key@ == member_key_text(name@, texts_of(written@)),
{
    let ghost all = texts_of(written@);
    let mut key = name.to_owned();
    key.append("(");
    key.append("");
    let mut i: usize = 0;
    assert(key@ =~= name@ + "("@ + comma_joined(all.take(0)));
    while i < written.len()
        invariant
            i <= written@.len(),
            all == texts_of(written@),
            key@ == name@ + "("@ + comma_joined(all.take(i as int)),
        decreases written@.len() - i,
    {
        if i > 0 {
            key.append(",");
        } else {
            key.append("");
        }
        key.append(written[i].as_str());
        i += 1;
        assert(all.take(i as int).drop_last() =~= all.take(i - 1));
        assert(all.take(i as int).last() == written@[i - 1]@);
        assert(key@ =~= name@ + "("@ + comma_joined(all.take(i as int)));
    }
    assert(all.take(i as int) =~= all);
    key.append(")");
    key
}

/// How a mode is written before a parameter's type.
pub open spec fn mode_text(mode: OwnershipMode) -> Seq<char> {
    match mode {
        OwnershipMode::Owned => ""@,
        OwnershipMode::BorrowRead => "borrow "@,
        OwnershipMode::BorrowMut => "borrow mut "@,
        OwnershipMode::Copy => "copy "@,
    }
}

impl<'a> Spelling<'a> {
    /// What a name spells, nothing where it is none of the program's.
    pub open spec fn name(&self, name: Symbol) -> Seq<char> {
        if self.names.has(name) {
            self.names.text(name)
        } else {
            ""@
        }
    }

    /// How a type is spelled, nothing where it has no spelling.
    pub open spec fn ty(&self, ty: Type) -> Seq<char> {
        match spelling_in(self.types@, ty) {
            Some(name) => self.name(name),
            None => ""@,
        }
    }

    /// How a field is spelled.
    pub open spec fn field(&self, field: FieldName) -> Seq<char> {
        match field {
            FieldName::Plain(name) => self.name(name),
            FieldName::Qualified { owner, name } => self.ty(Type::Struct(owner)) + "."@
                + self.name(name),
            FieldName::Tag => "tag"@,
            FieldName::Captured { name, tag, index } => self.name(name) + "$"@ + digits(
                tag as nat,
            ) + "_"@ + digits(index as nat),
        }
    }

    /// The suffix of a specialized copy's name.
    pub open spec fn suffix(&self, copies: Seq<(usize, Symbol)>) -> Seq<char>
        decreases copies.len(),
    {
        if copies.len() == 0 {
            ""@
        } else {
            self.suffix(copies.drop_last()) + "$"@ + digits(copies.last().0 as nat) + "$"@
                + self.name(copies.last().1)
        }
    }

    /// How a callable's name is spelled. `$` cannot stand in a written name, so a
    /// name that holds one collides with nothing the source can say.
    pub open spec fn call_name(&self, name: (NameForm, Seq<(usize, Symbol)>)) -> Seq<char> {
        match name.0 {
            NameForm::Initializer { owner } => self.name(owner) + "$init"@,
            NameForm::Free { name: written } => self.name(written) + self.suffix(name.1),
            NameForm::Method { owner, name: written } => self.name(owner) + "."@ + self.name(
                written,
            ) + self.suffix(name.1),
            NameForm::Shadowed { owner, origin, name: written } => self.name(owner) + "."@
                + self.name(origin) + "$"@ + self.name(written) + self.suffix(name.1),
        }
    }

    /// How a function's name is spelled.
    pub open spec fn function(&self, id: FuncId) -> Seq<char> {
        if id.0 < self.sigs.sigs@.len() {
            self.call_name(self.sigs.sigs@[id.0 as int].name@)
        } else {
            ""@
        }
    }

    /// How the types that tell an overload apart are spelled behind its name.
    pub open spec fn mangling(&self, params: Seq<Type>) -> Seq<char>
        decreases params.len(),
    {
        if params.len() == 0 {
            ""@
        } else {
            self.mangling(params.drop_last()) + "$"@ + underlined(
                match spelling_in(self.identities@, params.last()) {
                    Some(name) => self.name(name),
                    None => ""@,
                },
            )
        }
    }

    /// The symbol a function is compiled under: its name, qualified by the package
    /// that declares it, and told apart by what it takes where it is overloaded.
    pub open spec fn symbol(&self, id: FuncId) -> Seq<char> {
        if id.0 < self.sigs.sigs@.len() {
            let sig = self.sigs.sigs@[id.0 as int];
            (match sig.package {
                Some(package) => self.name(package) + "::"@,
                None => ""@,
            }) + self.call_name(sig.name@) + if sig.mangled {
                self.mangling(sig.params@)
            } else {
                ""@
            }
        } else {
            ""@
        }
    }

    /// How the name a function answers to in the compiled program is spelled.
    pub open spec fn function_name(&self, name: FunctionName) -> Seq<char> {
        match name {
            FunctionName::Declared(id) => self.symbol(id),
            FunctionName::ConstantInit(constant) => self.name(constant) + "$constant"@,
            FunctionName::Closure { repr, number: n } => self.ty(Type::Struct(repr)) + "#"@
                + digits(n as nat),
            FunctionName::Reference { name: of, number: n } => self.name(of) + "$reference#"@
                + digits(n as nat),
            FunctionName::ClosureCall(repr) => self.ty(Type::Struct(repr)) + "$call"@,
            FunctionName::Dispatch { family, method } => self.family_method(family, method)
                + "$dispatch"@,
            FunctionName::DispatchTree { family, method, number: n } => self.family_method(
                family,
                method,
            ) + "$dispatch_tree"@ + digits(n as nat),
            FunctionName::DispatchArm { family, method, tag } => self.family_method(family, method)
                + "$dispatch_arm"@ + digits(tag as nat),
            FunctionName::FamilyRead { family, member } => "some "@ + self.name(family) + "."@
                + self.name(member) + "$read"@,
            FunctionName::Modifier { family, method } => self.family_method(family, method),
            FunctionName::Unreachable => "<unreachable closure>"@,
        }
    }

    /// `Any Family.method`.
    pub open spec fn family_method(&self, family: Symbol, method: Symbol) -> Seq<char> {
        "Any "@ + self.name(family) + "."@ + self.name(method)
    }

    /// How the first `count` parameters of a function type are spelled.
    pub open spec fn params(&self, sig: FuncSig, count: int) -> Seq<char>
        decreases count,
    {
        if count <= 0 {
            ""@
        } else {
            self.params(sig, count - 1) + (if count > 1 {
                ", "@
            } else {
                ""@
            }) + mode_text(
                if count <= sig.param_ownership@.len() {
                    sig.param_ownership@[count - 1]
                } else {
                    OwnershipMode::Owned
                },
            ) + self.ty(sig.params@[count - 1])
        }
    }

    /// How the function type of a function's own signature is spelled.
    pub open spec fn function_type(&self, id: FuncId) -> Seq<char> {
        if id.0 < self.sigs.sigs@.len() {
            let sig = self.sigs.sigs@[id.0 as int];
            "("@ + self.params(sig, sig.params@.len() as int) + ") -> "@ + self.ty(sig.return_type)
        } else {
            ""@
        }
    }

    /// How one piece of a message is spelled.
    pub open spec fn piece(&self, piece: Piece) -> Seq<char> {
        match piece {
            Piece::Text(text) => text@,
            Piece::Name(name) => self.name(name),
            Piece::Ty(ty) => self.ty(ty),
            Piece::Field(field) => self.field(field),
            Piece::Count(count) => digits(count as nat),
            Piece::Number(n) => number(n as int),
            Piece::Function(id) => self.function(id),
            Piece::FunctionType(id) => self.function_type(id),
            Piece::Callee(callee) => match callee {
                CalleeName::Value(ty) => self.ty(ty),
                CalleeName::Method { owner, method } => self.ty(owner) + "."@ + self.name(method),
            },
            Piece::Clash(clash) => match clash {
                NameClash::Builtin => "the builtin type `"@,
                NameClash::EarlierAlias => "an earlier type alias `"@,
                NameClash::Struct => "the struct `"@,
                NameClash::Enum => "the enum `"@,
                NameClash::Class => "the class `"@,
            },
            Piece::PathFrom { label, from } => behind(self.name(label), from as nat),
        }
    }

    /// How the first `count` pieces of a message are spelled.
    pub open spec fn run(&self, pieces: Seq<Piece>, count: int) -> Seq<char>
        decreases count,
    {
        if count <= 0 {
            ""@
        } else {
            self.run(pieces, count - 1) + self.piece(pieces[count - 1])
        }
    }

    fn append_name(&self, text: &mut String, name: Symbol)
        ensures
            final(text)@ == old(text)@ + self.name(name),
    {
        if (name.0 as usize) < self.names.len() {
            text.append(self.names.resolve(name));
        } else {
            text.append("");
        }
    }

    fn append_type(&self, text: &mut String, ty: Type)
        ensures
            final(text)@ == old(text)@ + self.ty(ty),
    {
        let mut i: usize = 0;
        assert(self.types@.skip(0) =~= self.types@);
        while i < self.types.len()
            invariant
                i <= self.types@.len(),
                text@ == old(text)@,
                spelling_in(self.types@, ty) == spelling_in(self.types@.skip(i as int), ty),
            decreases self.types@.len() - i,
        {
            assert(self.types@.skip(i as int).drop_first() =~= self.types@.skip(i + 1));
            let (of, name) = self.types[i];
            if of == ty {
                self.append_name(text, name);
                return ;
            }
            i += 1;
        }
        text.append("");
    }

    fn append_field(&self, text: &mut String, field: FieldName)
        ensures
            final(text)@ == old(text)@ + self.field(field),
    {
        let ghost start = text@;
        match field {
            FieldName::Plain(name) => self.append_name(text, name),
            FieldName::Qualified { owner, name } => {
                self.append_type(text, Type::Struct(owner));
                text.append(".");
                self.append_name(text, name);
            },
            FieldName::Tag => text.append("tag"),
            FieldName::Captured { name, tag, index } => {
                self.append_name(text, name);
                text.append("$");
                append_digits(text, tag as u64);
                text.append("_");
                append_digits(text, index as u64);
            },
        }
        assert(text@ =~= start + self.field(field));
    }

    fn append_suffix(&self, text: &mut String, copies: &Vec<(usize, Symbol)>)
        ensures
            final(text)@ == old(text)@ + self.suffix(copies@),
    {
        let ghost start = text@;
        let mut i: usize = 0;
        text.append("");
        assert(text@ =~= start + self.suffix(copies@.take(0)));
        while i < copies.len()
            invariant
                i <= copies@.len(),
                text@ == start + self.suffix(copies@.take(i as int)),
            decreases copies@.len() - i,
        {
            let (slot, class) = copies[i];
            text.append("$");
            append_digits(text, slot as u64);
            text.append("$");
            self.append_name(text, class);
            i += 1;
            assert(copies@.take(i as int).drop_last() =~= copies@.take(i - 1));
            assert(text@ =~= start + self.suffix(copies@.take(i as int)));
        }
        assert(copies@.take(i as int) =~= copies@);
    }

    fn append_call_name(&self, text: &mut String, name: &CallName)
        ensures
            final(text)@ == old(text)@ + self.call_name(name@),
    {
        let ghost start = text@;
        match name.form {
            NameForm::Initializer { owner } => {
                self.append_name(text, owner);
                text.append("$init");
            },
            NameForm::Free { name: written } => {
                self.append_name(text, written);
                self.append_suffix(text, &name.copies);
            },
            NameForm::Method { owner, name: written } => {
                self.append_name(text, owner);
                text.append(".");
                self.append_name(text, written);
                self.append_suffix(text, &name.copies);
            },
            NameForm::Shadowed { owner, origin, name: written } => {
                self.append_name(text, owner);
                text.append(".");
                self.append_name(text, origin);
                text.append("$");
                self.append_name(text, written);
                self.append_suffix(text, &name.copies);
            },
        }
        assert(text@ =~= start + self.call_name(name@));
    }

    fn append_function(&self, text: &mut String, id: FuncId)
        ensures
            final(text)@ == old(text)@ + self.function(id),
    {
        if (id.0 as usize) < self.sigs.sigs.len() {
            self.append_call_name(text, &self.sigs.sigs[id.0 as usize].name);
        } else {
            text.append("");
        }
    }

    fn append_identity(&self, text: &mut String, ty: Type)
        ensures
            final(text)@ == old(text)@ + underlined(
                match spelling_in(self.identities@, ty) {
                    Some(name) => self.name(name),
                    None => ""@,
                },
            ),
    {
        let mut i: usize = 0;
        assert(self.identities@.skip(0) =~= self.identities@);
        while i < self.identities.len()
            invariant
                i <= self.identities@.len(),
                text@ == old(text)@,
                spelling_in(self.identities@, ty) == spelling_in(
                    self.identities@.skip(i as int),
                    ty,
                ),
            decreases self.identities@.len() - i,
        {
            assert(self.identities@.skip(i as int).drop_first() =~= self.identities@.skip(i + 1));
            let (of, name) = self.identities[i];
            if of == ty {
                if (name.0 as usize) < self.names.len() {
                    append_underlined(text, self.names.resolve(name));
                } else {
                    append_underlined(text, "");
                }
                return ;
            }
            i += 1;
        }
        append_underlined(text, "");
    }

    fn append_mangling(&self, text: &mut String, params: &Vec<Type>)
        ensures
            final(text)@ == old(text)@ + self.mangling(params@),
    {
        let ghost start = text@;
        let mut i: usize = 0;
        text.append("");
        assert(text@ =~= start + self.mangling(params@.take(0)));
        while i < params.len()
            invariant
                i <= params@.len(),
                text@ == start + self.mangling(params@.take(i as int)),
            decreases params@.len() - i,
        {
            text.append("$");
            self.append_identity(text, params[i]);
            i += 1;
            assert(params@.take(i as int).drop_last() =~= params@.take(i - 1));
            assert(text@ =~= start + self.mangling(params@.take(i as int)));
        }
        assert(params@.take(i as int) =~= params@);
    }

    fn append_symbol(&self, text: &mut String, id: FuncId)
        ensures
            final(text)@ == old(text)@ + self.symbol(id),
    {
        if (id.0 as usize) >= self.sigs.sigs.len() {
            text.append("");
            return ;
        }
        let sig = &self.sigs.sigs[id.0 as usize];
        let ghost start = text@;
        match sig.package {
            Some(package) => {
                self.append_name(text, package);
                text.append("::");
            },
            None => text.append(""),
        }
        self.append_call_name(text, &sig.name);
        if sig.mangled {
            self.append_mangling(text, &sig.params);
        } else {
            text.append("");
        }
        assert(text@ =~= start + self.symbol(id));
    }

    fn append_family_method(&self, text: &mut String, family: Symbol, method: Symbol)
        ensures
            final(text)@ == old(text)@ + self.family_method(family, method),
    {
        let ghost start = text@;
        text.append("Any ");
        self.append_name(text, family);
        text.append(".");
        self.append_name(text, method);
        assert(text@ =~= start + self.family_method(family, method));
    }

    /// Spells the name a function answers to in the compiled program.
    pub fn spell_function_name(&self, name: FunctionName) -> (spelled: String)
        ensures
            spelled@ == self.function_name(name),
    {
        let mut text = "".to_owned();
        proof {
            reveal_strlit("");
        }
        match name {
            FunctionName::Declared(id) => self.append_symbol(&mut text, id),
            FunctionName::ConstantInit(constant) => {
                self.append_name(&mut text, constant);
                text.append("$constant");
            },
            FunctionName::Closure { repr, number: n } => {
                self.append_type(&mut text, Type::Struct(repr));
                text.append("#");
                append_digits(&mut text, n as u64);
            },
            FunctionName::Reference { name: of, number: n } => {
                self.append_name(&mut text, of);
                text.append("$reference#");
                append_digits(&mut text, n as u64);
            },
            FunctionName::ClosureCall(repr) => {
                self.append_type(&mut text, Type::Struct(repr));
                text.append("$call");
            },
            FunctionName::Dispatch { family, method } => {
                self.append_family_method(&mut text, family, method);
                text.append("$dispatch");
            },
            FunctionName::DispatchTree { family, method, number: n } => {
                self.append_family_method(&mut text, family, method);
                text.append("$dispatch_tree");
                append_digits(&mut text, n as u64);
            },
            FunctionName::DispatchArm { family, method, tag } => {
                self.append_family_method(&mut text, family, method);
                text.append("$dispatch_arm");
                append_digits(&mut text, tag as u64);
            },
            FunctionName::FamilyRead { family, member } => {
                text.append("some ");
                self.append_name(&mut text, family);
                text.append(".");
                self.append_name(&mut text, member);
                text.append("$read");
            },
            FunctionName::Modifier { family, method } => {
                self.append_family_method(&mut text, family, method);
            },
            FunctionName::Unreachable => text.append("<unreachable closure>"),
        }
        assert(text@ =~= self.function_name(name));
        text
    }

    fn append_function_type(&self, text: &mut String, id: FuncId)
        ensures
            final(text)@ == old(text)@ + self.function_type(id),
    {
        if (id.0 as usize) >= self.sigs.sigs.len() {
            text.append("");
            return ;
        }
        let sig = &self.sigs.sigs[id.0 as usize];
        let ghost start = text@;
        text.append("(");
        text.append("");
        let mut i: usize = 0;
        assert(text@ =~= start + "("@ + self.params(*sig, 0));
        while i < sig.params.len()
            invariant
                i <= sig.params@.len(),
                text@ == start + "("@ + self.params(*sig, i as int),
            decreases sig.params@.len() - i,
        {
            let ghost before = text@;
            if i > 0 {
                text.append(", ");
            } else {
                text.append("");
            }
            let mode = if i < sig.param_ownership.len() {
                sig.param_ownership[i]
            } else {
                OwnershipMode::Owned
            };
            match mode {
                OwnershipMode::Owned => text.append(""),
                OwnershipMode::BorrowRead => text.append("borrow "),
                OwnershipMode::BorrowMut => text.append("borrow mut "),
                OwnershipMode::Copy => text.append("copy "),
            }
            self.append_type(text, sig.params[i]);
            i += 1;
            assert(text@ =~= start + "("@ + self.params(*sig, i as int));
        }
        text.append(") -> ");
        self.append_type(text, sig.return_type);
        assert(text@ =~= start + self.function_type(id));
    }

    fn append_piece(&self, text: &mut String, piece: Piece)
        ensures
            final(text)@ == old(text)@ + self.piece(piece),
    {
        let ghost start = text@;
        match piece {
            Piece::Text(fixed) => text.append(fixed),
            Piece::Name(name) => self.append_name(text, name),
            Piece::Ty(ty) => self.append_type(text, ty),
            Piece::Field(field) => self.append_field(text, field),
            Piece::Count(count) => append_digits(text, count as u64),
            Piece::Number(n) => append_number(text, n),
            Piece::Function(id) => self.append_function(text, id),
            Piece::FunctionType(id) => self.append_function_type(text, id),
            Piece::Callee(callee) => match callee {
                CalleeName::Value(ty) => self.append_type(text, ty),
                CalleeName::Method { owner, method } => {
                    self.append_type(text, owner);
                    text.append(".");
                    self.append_name(text, method);
                },
            },
            Piece::Clash(clash) => match clash {
                NameClash::Builtin => text.append("the builtin type `"),
                NameClash::EarlierAlias => text.append("an earlier type alias `"),
                NameClash::Struct => text.append("the struct `"),
                NameClash::Enum => text.append("the enum `"),
                NameClash::Class => text.append("the class `"),
            },
            Piece::PathFrom { label, from } => {
                if (label.0 as usize) < self.names.len() {
                    let path = self.names.resolve(label);
                    append_behind(text, path, from);
                } else {
                    text.append("");
                    proof {
                        reveal_strlit("");
                    }
                    assert(behind(""@, from as nat) =~= ""@);
                }
            },
        }
        assert(text@ =~= start + self.piece(piece));
    }

    /// Spells a message.
    pub fn spell(&self, pieces: &Vec<Piece>) -> (text: String)
        ensures
            text@ == self.run(pieces@, pieces@.len() as int),
    {
        let mut text = "".to_owned();
        let mut i: usize = 0;
        while i < pieces.len()
            invariant
                i <= pieces@.len(),
                text@ == self.run(pieces@, i as int),
            decreases pieces@.len() - i,
        {
            self.append_piece(&mut text, pieces[i]);
            i += 1;
        }
        text
    }

    /// Spells the name a function is known by.
    pub fn spell_function(&self, id: FuncId) -> (text: String)
        ensures
            text@ == self.function(id),
    {
        let mut text = "".to_owned();
        self.append_function(&mut text, id);
        proof {
            reveal_strlit("");
        }
        assert(text@ =~= self.function(id));
        text
    }

    /// Spells the function type of a function's own signature.
    pub fn function_type_name(&self, id: FuncId) -> (text: String)
        ensures
            text@ == self.function_type(id),
    {
        let mut text = "".to_owned();
        self.append_function_type(&mut text, id);
        proof {
            reveal_strlit("");
        }
        assert(text@ =~= self.function_type(id));
        text
    }

    /// Spells what is said of a problem.
    pub fn spell_problem(&self, problem: &Problem) -> (text: String)
        ensures
            text@ == self.run(problem.pieces(), problem.pieces().len() as int),
    {
        let pieces = problem.message();
        self.spell(&pieces)
    }
}

/// A code, spelled: `KSEM` and three digits.
pub open spec fn code_text(code: u16) -> Seq<char> {
    "KSEM"@ + (if code < 100 {
        "0"@
    } else {
        ""@
    }) + (if code < 10 {
        "0"@
    } else {
        ""@
    }) + digits(code as nat)
}

/// Spells a problem's code.
pub fn spell_code(code: u16) -> (text: String)
    ensures
        text@ == code_text(code),
{
    let mut text = "KSEM".to_owned();
    if code < 100 {
        text.append("0");
    } else {
        text.append("");
    }
    if code < 10 {
        text.append("0");
    } else {
        text.append("");
    }
    append_digits(&mut text, code as u64);
    text
}

/// What is said of a member an array does not have is what the array surface says
/// of it.
pub proof fn missing_array_members_are_told_the_surface(spelling: Spelling, member: Symbol)
    ensures
        ({
            let pieces = Problem::NoArrayMember { member }.pieces();
            spelling.run(pieces, pieces.len() as int) == crate::arrays::unsupported_member_text(
                spelling.name(member),
            )
        }),
{
    let pieces = Problem::NoArrayMember { member }.pieces();
    reveal_with_fuel(Spelling::run, 4);
    reveal_strlit("");
    assert(spelling.run(pieces, 3) =~= crate::arrays::unsupported_member_text(
        spelling.name(member),
    ));
}

/// The number a run of digits spells.
pub open spec fn decimal(text: Seq<char>) -> int
    decreases text.len(),
{
    if text.len() == 0 {
        0
    } else {
        decimal(text.drop_last()) * 10 + (text.last() as int - '0' as int)
    }
}

/// A number is spelled by digits alone that read back as the number, without a leading
/// zero but for zero itself.
pub proof fn digits_read_back(n: nat)
    ensures
        decimal(digits(n)) == n,
        digits(n).len() > 0,
        n > 0 ==> digits(n)[0] != '0',
        forall|i: int| 0 <= i < digits(n).len() ==> '0' <= #[trigger] digits(n)[i] <= '9',
    decreases n,
{
    lemma_digit(n % 10);
    if n < 10 {
        lemma_digit(n);
        assert(digits(n).drop_last() =~= Seq::<char>::empty());
        reveal_with_fuel(decimal, 2);
    } else {
        digits_read_back(n / 10);
        let text = digits(n);
        assert(text.drop_last() =~= digits(n / 10));
        assert(text.last() == digit(n % 10)[0]);
        assert(text[0] == digits(n / 10)[0]);
        assert forall|i: int| 0 <= i < text.len() implies '0' <= #[trigger] text[i] <= '9' by {
            if i < text.len() - 1 {
                assert(text[i] == digits(n / 10)[i]);
            }
        }
    }
}

proof fn lemma_digit(n: nat)
    requires
        n < 10,
    ensures
        digit(n).len() == 1,
        digit(n)[0] as int == '0' as int + n,
{
    reveal_strlit("0");
    reveal_strlit("1");
    reveal_strlit("2");
    reveal_strlit("3");
    reveal_strlit("4");
    reveal_strlit("5");
    reveal_strlit("6");
    reveal_strlit("7");
    reveal_strlit("8");
    reveal_strlit("9");
}

/// A negative number is spelled with a minus sign before its magnitude, and no other is.
pub proof fn only_a_negative_number_has_a_sign(n: int)
    ensures
        n >= 0 ==> decimal(number(n)) == n && number(n)[0] != '-',
        n < 0 ==> number(n)[0] == '-' && decimal(number(n).drop_first()) == -n,
{
    reveal_strlit("-");
    if n < 0 {
        digits_read_back((-n) as nat);
        assert(number(n).drop_first() =~= digits((-n) as nat));
    } else {
        digits_read_back(n as nat);
        assert('0' <= digits(n as nat)[0]);
    }
}

/// A type is spelled by the first row of the table that gives it a spelling.
pub proof fn a_type_has_its_first_spelling(rows: Seq<(Type, Symbol)>, ty: Type)
    ensures
        match spelling_in(rows, ty) {
            Some(name) => exists|k: int|
                0 <= k < rows.len() && #[trigger] rows[k] == (ty, name) && forall|j: int|
                    0 <= j < k ==> (#[trigger] rows[j]).0 != ty,
            None => forall|k: int| 0 <= k < rows.len() ==> (#[trigger] rows[k]).0 != ty,
        },
    decreases rows.len(),
{
    if rows.len() > 0 {
        if rows[0].0 == ty {
            assert(rows[0] == (ty, rows[0].1));
        } else {
            let rest = rows.drop_first();
            a_type_has_its_first_spelling(rest, ty);
            match spelling_in(rest, ty) {
                Some(name) => {
                    let k = choose|k: int|
                        0 <= k < rest.len() && #[trigger] rest[k] == (ty, name) && forall|j: int|
                            0 <= j < k ==> (#[trigger] rest[j]).0 != ty;
                    assert(rows[k + 1] == (ty, name));
                    assert forall|j: int| 0 <= j < k + 1 implies (#[trigger] rows[j]).0 != ty by {
                        if j > 0 {
                            assert(rows[j] == rest[j - 1]);
                        }
                    }
                },
                None => {
                    assert forall|k: int| 0 <= k < rows.len() implies (#[trigger] rows[k]).0
                        != ty by {
                        if k > 0 {
                            assert(rows[k] == rest[k - 1]);
                        }
                    }
                },
            }
        }
    }
}

/// A message says its pieces, each of them, one behind the other: what the first of them
/// come to begins it, and the next piece follows.
pub proof fn a_message_says_every_piece(spelling: Spelling, pieces: Seq<Piece>, count: int, k: int)
    requires
        0 <= k < count <= pieces.len(),
    ensures
        ({
            let said = spelling.run(pieces, k).len() as int;
            let piece = spelling.piece(pieces[k]);
            let all = spelling.run(pieces, count);
            &&& said + piece.len() <= all.len()
            &&& all.subrange(said, said + piece.len()) == piece
            &&& count == k + 1 ==> all.len() == said + piece.len()
        }),
    decreases count,
{
    let said = spelling.run(pieces, k).len() as int;
    let piece = spelling.piece(pieces[k]);
    let all = spelling.run(pieces, count);
    reveal_strlit("");
    if k < count - 1 {
        a_message_says_every_piece(spelling, pieces, count - 1, k);
        let before = spelling.run(pieces, count - 1);
        assert(all.subrange(said, said + piece.len()) =~= before.subrange(
            said,
            said + piece.len(),
        ));
    } else {
        assert(all.subrange(said, said + piece.len()) =~= piece);
    }
}

/// A code is spelled with at least three digits, and they read back as the code.
pub proof fn a_code_reads_back(code: u16)
    requires
        code < 1000,
    ensures
        code_text(code).len() == 7,
        decimal(code_text(code).subrange(4, 7)) == code,
{
    reveal_strlit("KSEM");
    reveal_strlit("0");
    reveal_strlit("");
    digits_read_back(code as nat);
    lemma_digit_count(code as nat);
    let text = code_text(code).subrange(4, 7);
    let plain = digits(code as nat);
    let zero = seq!['0'];
    if code < 10 {
        assert(text =~= zero + zero + plain);
        lemma_zero_before(zero + plain);
        lemma_zero_before(plain);
        assert(zero + zero + plain =~= zero + (zero + plain));
    } else if code < 100 {
        assert(text =~= zero + plain);
        lemma_zero_before(plain);
    } else {
        assert(text =~= plain);
    }
}

proof fn lemma_zero_before(text: Seq<char>)
    ensures
        decimal(seq!['0'] + text) == decimal(text),
    decreases text.len(),
{
    let longer = seq!['0'] + text;
    if text.len() == 0 {
        assert(longer.drop_last() =~= Seq::<char>::empty());
        assert(longer.last() == '0');
        assert(decimal(longer.drop_last()) == 0);
    } else {
        lemma_zero_before(text.drop_last());
        assert(longer.drop_last() =~= seq!['0'] + text.drop_last());
        assert(longer.last() == text.last());
    }
}

proof fn lemma_digit_count(n: nat)
    requires
        n < 1000,
    ensures
        digits(n).len() == if n < 10 {
            1nat
        } else if n < 100 {
            2nat
        } else {
            3nat
        },
{
    lemma_digit(n % 10);
    if n < 10 {
        lemma_digit(n);
    } else {
        let tens = n / 10;
        lemma_digit(tens % 10);
        if tens < 10 {
            lemma_digit(tens);
        } else {
            lemma_digit(tens / 10);
            assert(digits(tens / 10) == digit(tens / 10));
            assert(digits(tens) == digits(tens / 10) + digit(tens % 10));
        }
        assert(digits(n) == digits(tens) + digit(n % 10));
    }
}

/// An overload's symbol names its package, its name and, where the name is overloaded,
/// what it takes: it begins with the package's name and the separator where it has one.
pub proof fn a_symbol_begins_with_its_package(spelling: Spelling, id: FuncId, package: Symbol)
    requires
        id.0 < spelling.sigs.sigs@.len(),
        spelling.sigs.sigs@[id.0 as int].package == Some(package),
    ensures
        ({
            let sig = spelling.sigs.sigs@[id.0 as int];
            let lead = spelling.name(package) + "::"@;
            let name = spelling.call_name(sig.name@);
            let symbol = spelling.symbol(id);
            &&& symbol.len() >= lead.len() + name.len()
            &&& symbol.take(lead.len() as int) == lead
            &&& symbol.subrange(lead.len() as int, (lead.len() + name.len()) as int) == name
            &&& !sig.mangled ==> symbol.len() == lead.len() + name.len()
        }),
{
    reveal_strlit("");
    let sig = spelling.sigs.sigs@[id.0 as int];
    let lead = spelling.name(package) + "::"@;
    let name = spelling.call_name(sig.name@);
    let symbol = spelling.symbol(id);
    assert(symbol.take(lead.len() as int) =~= lead);
    assert(symbol.subrange(lead.len() as int, (lead.len() + name.len()) as int) =~= name);
}

/// What a member is known by begins with its name and a bracket and ends with a bracket;
/// and texts are joined by one comma between each two of them.
pub proof fn a_member_key_begins_with_its_name(name: Seq<char>, written: Seq<Seq<char>>)
    ensures
        ({
            let key = member_key_text(name, written);
            &&& key.len() == name.len() + comma_joined(written).len() + 2
            &&& key.take(name.len() as int) == name
            &&& key[name.len() as int] == '('
            &&& key.last() == ')'
            &&& key.subrange(name.len() as int + 1, key.len() - 1) == comma_joined(written)
        }),
        written.len() == 1 ==> comma_joined(written) == written[0],
        written.len() == 2 ==> comma_joined(written) == written[0] + seq![','] + written[1],
{
    reveal_strlit("(");
    reveal_strlit(")");
    reveal_strlit(",");
    reveal_strlit("");
    let key = member_key_text(name, written);
    assert(key.take(name.len() as int) =~= name);
    assert(key.subrange(name.len() as int + 1, key.len() - 1) =~= comma_joined(written));
    reveal_with_fuel(comma_joined, 3);
    if written.len() == 1 {
        assert(comma_joined(written) =~= written[0]);
    }
    if written.len() == 2 {
        assert(written.drop_last()[0] == written[0]);
        assert(comma_joined(written) =~= written[0] + seq![','] + written[1]);
    }
}

/// The modes of a parameter are spelled apart, and an owned one is spelled by nothing.
pub proof fn modes_are_spelled_apart(a: OwnershipMode, b: OwnershipMode)
    ensures
        a != b ==> mode_text(a) != mode_text(b),
        mode_text(a).len() == 0 <==> a == OwnershipMode::Owned,
        a != OwnershipMode::Owned ==> mode_text(a).last() == ' ',
{
    reveal_strlit("");
    reveal_strlit("borrow ");
    reveal_strlit("borrow mut ");
    reveal_strlit("copy ");
    if a != b {
        assert(mode_text(a).len() != mode_text(b).len());
    }
}

} // verus!

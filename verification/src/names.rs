//! Interned names and the small text toolkit diagnostics are spelled with.
//!
//! A name is a [`Symbol`], an index into the program's [`Names`]. The table is
//! kept in text order, so comparing two symbols compares what they spell and a
//! table sorted by symbol is sorted by name.

use vstd::prelude::*;
use vstd::string::{StringExecFns, StringSliceAdditionalSpecFns};

verus! {

/// One interned name.
#[derive(Clone, Copy, PartialEq, Eq, Structural, Debug)]
pub struct Symbol(pub u32);

/// Whether `a` comes before `b` in text order.
pub open spec fn text_before(a: Seq<char>, b: Seq<char>) -> bool
    decreases a.len(),
{
    if b.len() == 0 {
        false
    } else if a.len() == 0 {
        true
    } else if a[0] != b[0] {
        a[0] < b[0]
    } else {
        text_before(a.drop_first(), b.drop_first())
    }
}

/// Decides [`text_before`].
pub fn comes_before(a: &str, b: &str) -> (res: bool)
    ensures
        res == text_before(a@, b@),
{
    let left: usize = a.unicode_len();
    let right: usize = b.unicode_len();
    let mut i: usize = 0;
    assert(a@.skip(0) =~= a@);
    assert(b@.skip(0) =~= b@);
    while i < left && i < right
        invariant
            i <= left,
            i <= right,
            left == a@.len(),
            right == b@.len(),
            text_before(a@, b@) == text_before(a@.skip(i as int), b@.skip(i as int)),
        decreases left - i,
    {
        let x = a.get_char(i);
        let y = b.get_char(i);
        assert(a@.skip(i as int).drop_first() =~= a@.skip(i + 1));
        assert(b@.skip(i as int).drop_first() =~= b@.skip(i + 1));
        if x != y {
            return x < y;
        }
        i += 1;
    }
    i == left && i < right
}

/// Whether `text` begins with `prefix`.
pub open spec fn has_prefix(text: Seq<char>, prefix: Seq<char>) -> bool {
    prefix.len() <= text.len() && text.take(prefix.len() as int) == prefix
}

/// Decides [`has_prefix`].
pub fn starts_with(text: &str, prefix: &str) -> (res: bool)
    ensures
        res == has_prefix(text@, prefix@),
{
    let whole: usize = text.unicode_len();
    let part: usize = prefix.unicode_len();
    if part > whole {
        return false;
    }
    let mut i: usize = 0;
    while i < part
        invariant
            i <= part <= whole,
            whole == text@.len(),
            part == prefix@.len(),
            forall|k: int| 0 <= k < i ==> text@[k] == prefix@[k],
        decreases part - i,
    {
        if text.get_char(i) != prefix.get_char(i) {
            assert(text@.take(part as int)[i as int] != prefix@[i as int]);
            return false;
        }
        i += 1;
    }
    assert(text@.take(part as int) =~= prefix@);
    true
}

/// Whether two texts are the same text.
pub fn same_text(a: &str, b: &str) -> (res: bool)
    ensures
        res == (a@ == b@),
{
    let left: usize = a.unicode_len();
    if left != b.unicode_len() {
        return false;
    }
    let same = starts_with(a, b);
    proof {
        assert(a@.take(left as int) =~= a@);
    }
    same
}

/// Every name a program mentions.
pub struct Names {
    texts: Vec<String>,
}

impl View for Names {
    type V = Seq<Seq<char>>;

    closed spec fn view(&self) -> Seq<Seq<char>> {
        Seq::new(self.texts@.len(), |i: int| self.texts@[i]@)
    }
}

/// Whether a run of texts is strictly ascending, so no text occurs twice.
pub open spec fn ascending(texts: Seq<Seq<char>>) -> bool {
    forall|i: int| 0 <= i && i + 1 < texts.len() ==> text_before(#[trigger] texts[i], texts[i + 1])
}

impl Names {
    /// The names are in text order.
    pub open spec fn wf(&self) -> bool {
        ascending(self@)
    }

    /// Whether `name` is one of these names.
    pub open spec fn has(&self, name: Symbol) -> bool {
        name.0 < self@.len()
    }

    /// What `name` spells.
    pub open spec fn text(&self, name: Symbol) -> Seq<char> {
        self@[name.0 as int]
    }

    /// Interns a run of texts, refusing one that is not in strict text order.
    pub fn new(texts: Vec<String>) -> (res: Option<Names>)
        ensures
            res is Some <==> ascending(Seq::new(texts@.len(), |i: int| texts@[i]@)),
            res matches Some(names) ==> names.wf() && names@ == Seq::new(
                texts@.len(),
                |i: int| texts@[i]@,
            ),
    {
        let ghost all = Seq::new(texts@.len(), |i: int| texts@[i]@);
        let mut i: usize = 1;
        while i < texts.len()
            invariant
                1 <= i,
                all == Seq::new(texts@.len(), |i: int| texts@[i]@),
                forall|k: int|
                    0 <= k && k + 1 < i && k + 1 < all.len() ==> text_before(
                        #[trigger] all[k],
                        all[k + 1],
                    ),
            decreases texts.len() - i,
        {
            if !comes_before(texts[i - 1].as_str(), texts[i].as_str()) {
                assert(!text_before(all[i - 1], all[i - 1 + 1]));
                return None;
            }
            i += 1;
        }
        Some(Names { texts })
    }

    /// How many names there are.
    pub fn len(&self) -> (len: usize)
        ensures
            len == self@.len(),
    {
        self.texts.len()
    }

    /// What `name` spells.
    pub fn resolve(&self, name: Symbol) -> (text: &str)
        requires
            self.has(name),
        ensures
            text@ == self.text(name),
    {
        self.texts[name.0 as usize].as_str()
    }
}

proof fn lemma_text_order(a: Seq<char>, b: Seq<char>)
    ensures
        !(text_before(a, b) && text_before(b, a)),
        a != b ==> text_before(a, b) || text_before(b, a),
        !text_before(a, a),
    decreases a.len(),
{
    if a.len() > 0 && b.len() > 0 {
        lemma_text_order(a.drop_first(), b.drop_first());
        lemma_text_order(a.drop_first(), a.drop_first());
        if a[0] == b[0] && a != b {
            if a.drop_first() == b.drop_first() {
                assert(a =~= seq![a[0]] + a.drop_first());
                assert(b =~= seq![b[0]] + b.drop_first());
            }
        }
    } else if a.len() == 0 && b.len() == 0 {
        assert(a =~= b);
    } else if a.len() > 0 {
        lemma_text_order(a.drop_first(), a.drop_first());
    }
}

proof fn lemma_text_between(a: Seq<char>, b: Seq<char>, c: Seq<char>)
    requires
        text_before(a, b),
        text_before(b, c),
    ensures
        text_before(a, c),
    decreases a.len(),
{
    if a.len() > 0 && a[0] == b[0] && b[0] == c[0] {
        lemma_text_between(a.drop_first(), b.drop_first(), c.drop_first());
    }
}

/// Text order is a strict total order: of two different texts exactly one comes before the
/// other, none comes before itself, and it carries through.
pub proof fn text_order_is_total(a: Seq<char>, b: Seq<char>, c: Seq<char>)
    ensures
        !text_before(a, a),
        a != b ==> (text_before(a, b) <==> !text_before(b, a)),
        text_before(a, b) && text_before(b, c) ==> text_before(a, c),
        a.len() < b.len() && b.take(a.len() as int) == a ==> text_before(a, b),
{
    lemma_text_order(a, b);
    if text_before(a, b) && text_before(b, c) {
        lemma_text_between(a, b, c);
    }
    if a.len() < b.len() && b.take(a.len() as int) == a {
        lemma_prefix_first(a, b);
    }
}

proof fn lemma_prefix_first(a: Seq<char>, b: Seq<char>)
    requires
        a.len() < b.len(),
        b.take(a.len() as int) == a,
    ensures
        text_before(a, b),
    decreases a.len(),
{
    if a.len() > 0 {
        assert(b.take(a.len() as int)[0] == b[0]);
        assert(b.drop_first().take(a.drop_first().len() as int) =~= a.drop_first()) by {
            assert forall|i: int| 0 <= i < a.len() - 1 implies b.drop_first()[i]
                == #[trigger] a.drop_first()[i] by {
                assert(b.take(a.len() as int)[i + 1] == b[i + 1]);
            }
        }
        lemma_prefix_first(a.drop_first(), b.drop_first());
    }
}

} // verus!

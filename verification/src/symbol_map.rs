//! A table keyed by name, walked in text order.

use vstd::prelude::*;

use crate::names::Symbol;

verus! {

/// A table keyed by name. Rows are kept in the order of their names, which is
/// the order of the names' texts.
#[derive(Debug)]
pub struct SymbolMap<V> {
    pub rows: Vec<(Symbol, V)>,
}

/// The rows sit in strictly ascending name order.
pub open spec fn ordered<V>(rows: Seq<(Symbol, V)>) -> bool {
    forall|i: int, j: int| 0 <= i < j < rows.len() ==> (#[trigger] rows[i]).0.0 < (#[trigger] rows[j]).0.0
}

/// Some row is keyed by `key`.
pub open spec fn keyed<V>(rows: Seq<(Symbol, V)>, key: Symbol) -> bool {
    exists|i: int| 0 <= i < rows.len() && (#[trigger] rows[i]).0 == key
}

/// The value of the row keyed by `key`.
pub open spec fn value_of<V>(rows: Seq<(Symbol, V)>, key: Symbol) -> V {
    rows[choose|i: int| 0 <= i < rows.len() && (#[trigger] rows[i]).0 == key].1
}

impl<V> View for SymbolMap<V> {
    type V = Map<Symbol, V>;

    open spec fn view(&self) -> Map<Symbol, V> {
        Map::new(|key: Symbol| keyed(self.rows@, key), |key: Symbol| value_of(self.rows@, key))
    }
}

/// In an ordered table the value at a row is the value of its key.
pub proof fn lemma_row<V>(rows: Seq<(Symbol, V)>, i: int)
    requires
        ordered(rows),
        0 <= i < rows.len(),
    ensures
        keyed(rows, rows[i].0),
        value_of(rows, rows[i].0) == rows[i].1,
{
    let key = rows[i].0;
    let j = choose|j: int| 0 <= j < rows.len() && (#[trigger] rows[j]).0 == key;
    assert(rows[i].0 == key);
    assert(rows[j].0 == key);
    if j < i {
        assert(rows[j].0.0 < rows[i].0.0);
    } else if i < j {
        assert(rows[i].0.0 < rows[j].0.0);
    }
}

impl<V> SymbolMap<V> {
    /// The table is well formed: its rows are in order.
    pub open spec fn wf(&self) -> bool {
        ordered(self.rows@)
    }

    /// An empty table.
    pub fn new() -> (map: SymbolMap<V>)
        ensures
            map.wf(),
            map@ == Map::<Symbol, V>::empty(),
            map.rows@.len() == 0,
    {
        let map = SymbolMap { rows: Vec::new() };
        assert(map@ =~= Map::<Symbol, V>::empty());
        map
    }

    /// Where `key` is, or where it would go.
    fn search(&self, key: Symbol) -> (at: usize)
        requires
            self.wf(),
        ensures
            at <= self.rows@.len(),
            forall|i: int| 0 <= i < at ==> (#[trigger] self.rows@[i]).0.0 < key.0,
            forall|i: int| at <= i < self.rows@.len() ==> (#[trigger] self.rows@[i]).0.0 >= key.0,
    {
        let mut low: usize = 0;
        let mut high: usize = self.rows.len();
        while low < high
            invariant
                self.wf(),
                low <= high <= self.rows@.len(),
                forall|i: int| 0 <= i < low ==> (#[trigger] self.rows@[i]).0.0 < key.0,
                forall|i: int|
                    high <= i < self.rows@.len() ==> (#[trigger] self.rows@[i]).0.0 >= key.0,
            decreases high - low,
        {
            let mid: usize = low + (high - low) / 2;
            if self.rows[mid].0.0 < key.0 {
                low = mid + 1;
            } else {
                high = mid;
            }
        }
        low
    }

    /// The row of `key`, if there is one.
    pub fn find(&self, key: Symbol) -> (found: Option<usize>)
        requires
            self.wf(),
        ensures
            match found {
                Some(i) => i < self.rows@.len() && self.rows@[i as int].0 == key
                    && self@.contains_key(key) && self@[key] == self.rows@[i as int].1,
                None => !self@.contains_key(key),
            },
    {
        let at: usize = self.search(key);
        if at < self.rows.len() && self.rows[at].0 == key {
            proof {
                lemma_row(self.rows@, at as int);
            }
            Some(at)
        } else {
            proof {
                if keyed(self.rows@, key) {
                    let j = choose|j: int|
                        0 <= j < self.rows@.len() && (#[trigger] self.rows@[j]).0 == key;
                    assert(self.rows@[j].0 == key);
                    if j > at {
                        assert(self.rows@[at as int].0.0 < self.rows@[j].0.0);
                    }
                }
            }
            None
        }
    }

    /// Whether the table has a row for `key`.
    pub fn contains(&self, key: Symbol) -> (res: bool)
        requires
            self.wf(),
        ensures
            res == self@.contains_key(key),
    {
        self.find(key).is_some()
    }

    /// The value of `key`, if the table has one.
    pub fn get(&self, key: Symbol) -> (found: Option<&V>)
        requires
            self.wf(),
        ensures
            match found {
                Some(value) => self@.contains_key(key) && *value == self@[key],
                None => !self@.contains_key(key),
            },
    {
        match self.find(key) {
            Some(i) => Some(&self.rows[i].1),
            None => None,
        }
    }

    /// Gives `key` the value `value`, replacing what it had.
    pub fn insert(&mut self, key: Symbol, value: V)
        requires
            old(self).wf(),
        ensures
            final(self).wf(),
            final(self)@ == old(self)@.insert(key, value),
    {
        let at: usize = self.search(key);
        let ghost before = self.rows@;
        if at < self.rows.len() && self.rows[at].0 == key {
            self.rows[at] = (key, value);
            proof {
                let after = self.rows@;
                assert(after == before.update(at as int, (key, value)));
                assert forall|k: Symbol| keyed(after, k) <==> keyed(before, k) by {
                    if keyed(after, k) {
                        let i = choose|i: int| 0 <= i < after.len() && (#[trigger] after[i]).0 == k;
                        assert(before[i].0 == k);
                    }
                    if keyed(before, k) {
                        let i = choose|i: int|
                            0 <= i < before.len() && (#[trigger] before[i]).0 == k;
                        assert(after[i].0 == k);
                    }
                }
                assert forall|k: Symbol| keyed(after, k) && k != key implies #[trigger] value_of(
                    after,
                    k,
                ) == value_of(before, k) by {
                    let i = choose|i: int| 0 <= i < after.len() && (#[trigger] after[i]).0 == k;
                    lemma_row(after, i);
                    assert(before[i].0 == k);
                    lemma_row(before, i);
                }
                lemma_row(after, at as int);
                lemma_row(before, at as int);
                assert(self@ =~= old(self)@.insert(key, value));
            }
        } else {
            self.rows.insert(at, (key, value));
            proof {
                let after = self.rows@;
                assert(after == before.insert(at as int, (key, value)));
                assert(ordered(after));
                assert forall|k: Symbol| keyed(after, k) <==> (k == key || keyed(before, k)) by {
                    if keyed(after, k) && k != key {
                        let i = choose|i: int| 0 <= i < after.len() && (#[trigger] after[i]).0 == k;
                        if i < at {
                            assert(before[i].0 == k);
                        } else {
                            assert(before[i - 1].0 == k);
                        }
                    }
                    if keyed(before, k) {
                        let i = choose|i: int|
                            0 <= i < before.len() && (#[trigger] before[i]).0 == k;
                        if i < at {
                            assert(after[i].0 == k);
                        } else {
                            assert(after[i + 1].0 == k);
                        }
                    }
                    if k == key {
                        assert(after[at as int].0 == key);
                    }
                }
                assert forall|k: Symbol| keyed(before, k) && k != key implies #[trigger] value_of(
                    after,
                    k,
                ) == value_of(before, k) by {
                    let i = choose|i: int| 0 <= i < before.len() && (#[trigger] before[i]).0 == k;
                    lemma_row(before, i);
                    if i < at {
                        assert(after[i] == before[i]);
                        lemma_row(after, i);
                    } else {
                        assert(after[i + 1] == before[i]);
                        lemma_row(after, i + 1);
                    }
                }
                lemma_row(after, at as int);
                assert(self@ =~= old(self)@.insert(key, value));
            }
        }
    }
}

/// A table maps the name of each of its rows to that row's value, and nothing else.
pub proof fn a_row_is_what_its_name_means<V>(map: &SymbolMap<V>, i: int, key: Symbol)
    requires
        map.wf(),
    ensures
        0 <= i < map.rows@.len() ==> map@.contains_pair(map.rows@[i].0, map.rows@[i].1),
        map@.contains_key(key) <==> exists|k: int|
            0 <= k < map.rows@.len() && (#[trigger] map.rows@[k]).0 == key,
{
    if 0 <= i < map.rows@.len() {
        let name = map.rows@[i].0;
        assert(map.rows@[i].0 == name);
        assert(keyed(map.rows@, name));
        let k = choose|k: int| 0 <= k < map.rows@.len() && (#[trigger] map.rows@[k]).0 == name;
        if k < i {
            assert(map.rows@[k].0.0 < map.rows@[i].0.0);
        }
        if i < k {
            assert(map.rows@[i].0.0 < map.rows@[k].0.0);
        }
    }
}

} // verus!

//! A table keyed by name and kept in name order.
//!
//! Both the catalogue of migration units and the history of applied units are
//! such tables: no name occurs twice, and walking the table front to back
//! visits the names in strictly ascending order.

use crate::name::{
    compare_names, lemma_lt_asymmetric, lemma_lt_irreflexive, lemma_lt_transitive, name_lt,
    strictly_ascending, NameOrder,
};
use vstd::prelude::*;

verus! {

/// The names of a sequence of entries, in the same order.
pub open spec fn names_of<V>(entries: Seq<(Seq<char>, V)>) -> Seq<Seq<char>> {
    entries.map_values(|e: (Seq<char>, V)| e.0)
}

/// The number of names in `names` that come strictly before `n`. In an
/// ascending sequence this is the index at which `n` stands, or would stand.
pub open spec fn rank(names: Seq<Seq<char>>, n: Seq<char>) -> int {
    names.filter(|x: Seq<char>| name_lt(x, n)).len() as int
}

/// If exactly the first `p` names come before `n`, the rank of `n` is `p`.
pub proof fn lemma_rank_at_boundary(names: Seq<Seq<char>>, n: Seq<char>, p: int)
    requires
        0 <= p <= names.len(),
        forall|k: int| 0 <= k < p ==> name_lt(#[trigger] names[k], n),
        forall|k: int| p <= k < names.len() ==> !name_lt(#[trigger] names[k], n),
    ensures
        rank(names, n) == p,
    decreases names.len(),
{
    reveal(Seq::filter);
    if names.len() > 0 {
        let front = names.drop_last();
        let q = if p == names.len() { p - 1 } else { p };
        assert forall|k: int| 0 <= k < q implies name_lt(#[trigger] front[k], n) by {
            assert(front[k] == names[k]);
        }
        assert forall|k: int| q <= k < front.len() implies !name_lt(#[trigger] front[k], n) by {
            assert(front[k] == names[k]);
        }
        lemma_rank_at_boundary(front, n, q);
        if p == names.len() {
            assert(name_lt(names[names.len() - 1], n));
        } else {
            assert(!name_lt(names[names.len() - 1], n));
        }
    }
}

/// In an ascending sequence the names before `n` are exactly the first
/// `rank(names, n)`.
pub proof fn lemma_rank_boundary(names: Seq<Seq<char>>, n: Seq<char>)
    requires
        strictly_ascending(names),
    ensures
        0 <= rank(names, n) <= names.len(),
        forall|k: int| 0 <= k < rank(names, n) ==> name_lt(#[trigger] names[k], n),
        forall|k: int| rank(names, n) <= k < names.len() ==> !name_lt(#[trigger] names[k], n),
    decreases names.len(),
{
    reveal(Seq::filter);
    if names.len() > 0 {
        let front = names.drop_last();
        let last = names[names.len() - 1];
        assert forall|i: int, j: int| 0 <= i < j < front.len() implies name_lt(
            #[trigger] front[i],
            #[trigger] front[j],
        ) by {
            assert(front[i] == names[i] && front[j] == names[j]);
        }
        lemma_rank_boundary(front, n);
        let r = rank(front, n);
        if name_lt(last, n) {
            if r < front.len() {
                assert(name_lt(names[r], last));
                assert(front[r] == names[r]);
                lemma_lt_transitive(names[r], last, n);
            }
            assert forall|k: int| 0 <= k < r + 1 implies name_lt(#[trigger] names[k], n) by {
                if k < r {
                    assert(front[k] == names[k]);
                }
            }
        } else {
            assert forall|k: int| 0 <= k < r implies name_lt(#[trigger] names[k], n) by {
                assert(front[k] == names[k]);
            }
            assert forall|k: int| r <= k < names.len() implies !name_lt(#[trigger] names[k], n) by {
                if k < front.len() {
                    assert(front[k] == names[k]);
                }
            }
        }
    }
}

/// In an ascending sequence that holds `n`, `n` stands at its rank.
pub proof fn lemma_rank_of_member(names: Seq<Seq<char>>, n: Seq<char>)
    requires
        strictly_ascending(names),
        names.contains(n),
    ensures
        0 <= rank(names, n) < names.len(),
        names[rank(names, n)] == n,
{
    lemma_rank_boundary(names, n);
    let k = choose|k: int| 0 <= k < names.len() && names[k] == n;
    let r = rank(names, n);
    lemma_lt_irreflexive(n);
    if r < k {
        assert(name_lt(names[r], names[k]));
    } else if k < r {
        assert(name_lt(names[k], n));
    }
}

/// Inserting a name into an ascending sequence at its rank keeps the sequence
/// ascending, provided the name was not there.
pub proof fn lemma_insert_keeps_ascending(names: Seq<Seq<char>>, n: Seq<char>, p: int)
    requires
        strictly_ascending(names),
        0 <= p <= names.len(),
        forall|k: int| 0 <= k < p ==> name_lt(#[trigger] names[k], n),
        forall|k: int| p <= k < names.len() ==> name_lt(n, #[trigger] names[k]),
    ensures
        strictly_ascending(names.insert(p, n)),
{
    let out = names.insert(p, n);
    assert forall|i: int, j: int| 0 <= i < j < out.len() implies name_lt(
        #[trigger] out[i],
        #[trigger] out[j],
    ) by {
        if j < p {
            assert(out[i] == names[i] && out[j] == names[j]);
        } else if j == p {
            assert(out[i] == names[i]);
        } else if i < p {
            assert(out[i] == names[i] && out[j] == names[j - 1]);
        } else if i == p {
            assert(out[j] == names[j - 1]);
        } else {
            assert(out[i] == names[i - 1] && out[j] == names[j - 1]);
        }
    }
}

/// Removing a name from an ascending sequence keeps the sequence ascending.
pub proof fn lemma_remove_keeps_ascending(names: Seq<Seq<char>>, p: int)
    requires
        strictly_ascending(names),
        0 <= p < names.len(),
    ensures
        strictly_ascending(names.remove(p)),
{
    let out = names.remove(p);
    assert forall|i: int, j: int| 0 <= i < j < out.len() implies name_lt(
        #[trigger] out[i],
        #[trigger] out[j],
    ) by {
        let si = if i < p { i } else { i + 1 };
        let sj = if j < p { j } else { j + 1 };
        assert(out[i] == names[si] && out[j] == names[sj]);
    }
}

/// After an insertion a sequence holds what it held before and the new item.
pub proof fn lemma_insert_contains<T>(s: Seq<T>, p: int, x: T, y: T)
    requires
        0 <= p <= s.len(),
    ensures
        s.insert(p, x).contains(y) <==> (s.contains(y) || y == x),
{
    let out = s.insert(p, x);
    if s.contains(y) {
        let k = choose|k: int| 0 <= k < s.len() && s[k] == y;
        if k < p {
            assert(out[k] == y);
        } else {
            assert(out[k + 1] == y);
        }
    }
    if y == x {
        assert(out[p] == y);
    }
    if out.contains(y) {
        let k = choose|k: int| 0 <= k < out.len() && out[k] == y;
        if k < p {
            assert(s[k] == y);
        } else if k > p {
            assert(s[k - 1] == y);
        }
    }
}

/// After a removal a duplicate-free sequence holds what it held before but
/// the removed item.
pub proof fn lemma_remove_contains<T>(s: Seq<T>, p: int, y: T)
    requires
        0 <= p < s.len(),
        s.no_duplicates(),
    ensures
        s.remove(p).contains(y) <==> (s.contains(y) && y != s[p]),
{
    let out = s.remove(p);
    if s.contains(y) && y != s[p] {
        let k = choose|k: int| 0 <= k < s.len() && s[k] == y;
        if k < p {
            assert(out[k] == y);
        } else {
            assert(out[k - 1] == y);
        }
    }
    if out.contains(y) {
        let k = choose|k: int| 0 <= k < out.len() && out[k] == y;
        if k < p {
            assert(s[k] == y);
        } else {
            assert(s[k + 1] == y);
        }
    }
}

/// A table of values keyed by name, held in strictly ascending name order.
pub struct NameTable<V> {
    entries: Vec<(String, V)>,
}

impl<V> NameTable<V> {
    /// The entries as pairs of name and value, in table order.
    pub closed spec fn view(&self) -> Seq<(Seq<char>, V)> {
        Seq::new(self.entries@.len(), |i: int| (self.entries@[i].0@, self.entries@[i].1))
    }

    /// The names in table order.
    pub open spec fn names(&self) -> Seq<Seq<char>> {
        names_of(self@)
    }

    /// The table is well formed: its names stand in strictly ascending order.
    pub open spec fn wf(&self) -> bool {
        strictly_ascending(self.names())
    }

}

impl<V: Copy> NameTable<V> {
    /// An empty table.
    pub fn new() -> (r: Self)
        ensures
            r.wf(),
            r@ == Seq::<(Seq<char>, V)>::empty(),
    {
        let r = NameTable { entries: Vec::new() };
        assert(r@ =~= Seq::<(Seq<char>, V)>::empty());
        r
    }

    /// The number of entries.
    pub fn len(&self) -> (n: usize)
        ensures
            n == self@.len(),
    {
        self.entries.len()
    }

    /// The name of the entry at index `i`.
    pub fn name_at(&self, i: usize) -> (name: &String)
        requires
            i < self@.len(),
        ensures
            name@ == self@[i as int].0,
    {
        &self.entries[i].0
    }

    /// The value of the entry at index `i`.
    pub fn value_at(&self, i: usize) -> (value: V)
        requires
            i < self@.len(),
        ensures
            value == self@[i as int].1,
    {
        self.entries[i].1
    }

    /// Finds where `name` stands. The first component is the rank of `name`,
    /// the second says whether the table holds it.
    pub fn locate(&self, name: &str) -> (r: (usize, bool))
        requires
            self.wf(),
        ensures
            r.0 == rank(self.names(), name@),
            r.0 <= self@.len(),
            r.1 == self.names().contains(name@),
            r.1 ==> r.0 < self@.len() && self.names()[r.0 as int] == name@,
            forall|k: int| 0 <= k < r.0 ==> name_lt(#[trigger] self.names()[k], name@),
            forall|k: int|
                r.0 + (if r.1 { 1int } else { 0int }) <= k < self@.len() ==> name_lt(
                    name@,
                    #[trigger] self.names()[k],
                ),
    {
        let ghost names = self.names();
        let n: usize = self.entries.len();
        let mut i: usize = 0;
        while i < n
            invariant
                n == self@.len(),
                names == self.names(),
                strictly_ascending(names),
                i <= n,
                forall|k: int| 0 <= k < i ==> name_lt(#[trigger] names[k], name@),
            decreases n - i,
        {
            let here = compare_names(self.entries[i].0.as_str(), name);
            assert(names[i as int] == self.entries@[i as int].0@);
            match here {
                NameOrder::Before => {
                    i = i + 1;
                },
                NameOrder::Same => {
                    proof {
                        lemma_lt_irreflexive(name@);
                        assert forall|k: int| i < k < names.len() implies name_lt(
                            name@,
                            #[trigger] names[k],
                        ) by {
                            assert(name_lt(names[i as int], names[k]));
                        }
                        assert forall|k: int| i <= k < names.len() implies !name_lt(
                            #[trigger] names[k],
                            name@,
                        ) by {
                            if k > i {
                                lemma_lt_asymmetric(name@, names[k]);
                            }
                        }
                        lemma_rank_at_boundary(names, name@, i as int);
                    }
                    return (i, true);
                },
                NameOrder::After => {
                    proof {
                        crate::name::lemma_lt_total(names[i as int], name@);
                        assert forall|k: int| i <= k < names.len() implies name_lt(
                            name@,
                            #[trigger] names[k],
                        ) by {
                            if k > i {
                                assert(name_lt(names[i as int], names[k]));
                                lemma_lt_transitive(name@, names[i as int], names[k]);
                            }
                        }
                        assert forall|k: int| i <= k < names.len() implies !name_lt(
                            #[trigger] names[k],
                            name@,
                        ) by {
                            lemma_lt_asymmetric(name@, names[k]);
                        }
                        lemma_rank_at_boundary(names, name@, i as int);
                        assert forall|k: int| 0 <= k < names.len() implies names[k] != name@ by {
                            lemma_lt_irreflexive(name@);
                        }
                    }
                    return (i, false);
                },
            }
        }
        proof {
            lemma_rank_at_boundary(names, name@, i as int);
            assert forall|k: int| 0 <= k < names.len() implies names[k] != name@ by {
                lemma_lt_irreflexive(name@);
            }
        }
        (i, false)
    }

    /// Whether the table holds `name`.
    pub fn contains(&self, name: &str) -> (found: bool)
        requires
            self.wf(),
        ensures
            found == self.names().contains(name@),
    {
        self.locate(name).1
    }

    /// Adds an entry at the place that name order gives it. A name that the
    /// table already holds is not added again: the table stays as it was and
    /// the result is `false`.
    pub fn insert(&mut self, name: String, value: V) -> (inserted: bool)
        requires
            old(self).wf(),
        ensures
            final(self).wf(),
            inserted == !old(self).names().contains(name@),
            inserted ==> final(self)@ == old(self)@.insert(
                rank(old(self).names(), name@),
                (name@, value),
            ),
            !inserted ==> final(self)@ == old(self)@,
    {
        let (at, found) = self.locate(name.as_str());
        if found {
            return false;
        }
        let ghost before = self@;
        let ghost entry = (name@, value);
        proof {
            lemma_insert_keeps_ascending(names_of(before), name@, at as int);
            assert(names_of(before.insert(at as int, entry)) =~= names_of(before).insert(
                at as int,
                name@,
            ));
        }
        self.entries.insert(at, (name, value));
        assert(self@ =~= before.insert(at as int, entry));
        true
    }

    /// Takes out the entry of `name` and returns its value, or returns `None`
    /// and leaves the table as it was if there is no such entry.
    pub fn remove(&mut self, name: &str) -> (removed: Option<V>)
        requires
            old(self).wf(),
        ensures
            final(self).wf(),
            removed is Some == old(self).names().contains(name@),
            removed matches Some(v) ==> {
                let at = rank(old(self).names(), name@);
                &&& 0 <= at < old(self)@.len()
                &&& old(self)@[at] == (name@, v)
                &&& final(self)@ == old(self)@.remove(at)
            },
            removed is None ==> final(self)@ == old(self)@,
    {
        let (at, found) = self.locate(name);
        if !found {
            return None;
        }
        let ghost before = self@;
        proof {
            lemma_remove_keeps_ascending(names_of(before), at as int);
            assert(names_of(before.remove(at as int)) =~= names_of(before).remove(at as int));
        }
        let gone = self.entries.remove(at);
        assert(self@ =~= before.remove(at as int));
        Some(gone.1)
    }
}

} // verus!

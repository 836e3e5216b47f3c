//! Lists of entries kept in the order of their keys, and the maps that
//! they stand for.

use vstd::prelude::*;
use crate::order::{
    lemma_text_order_equal, lemma_text_order_swap, lemma_text_order_transitive, order_of,
    text_order,
};
use crate::text::chars_of;

verus! {

/// What is kept under a key: a text by which it is ordered and found.
pub trait Keyed {
    /// The key of the entry.
    spec fn key(&self) -> Seq<char>;
}

/// What can be held in an ordered set: its view has a key, whose text it
/// shows, and it can be copied.
pub trait Entry: View + Sized where Self::V: Keyed {
    /// The text of the key.
    fn name(&self) -> (n: &str)
        ensures
            n@ == self@.key(),
    ;

    /// A copy of the entry.
    fn duplicate(&self) -> (copy: Self)
        ensures
            copy@ == self@,
    ;
}

/// Each entry's key comes before the keys of all entries behind it.
pub open spec fn sorted_by_key<T: Keyed>(l: Seq<T>) -> bool {
    forall|i: int, j: int|
        #![trigger l[i], l[j]]
        0 <= i < j < l.len() ==> text_order(l[i].key(), l[j].key()) < 0
}

/// The place of the first entry whose key is `name`, or `l.len()` where
/// there is none.
pub open spec fn position<T: Keyed>(l: Seq<T>, name: Seq<char>) -> int
    decreases l.len(),
{
    if l.len() == 0 {
        0
    } else if l[0].key() == name {
        0
    } else {
        1 + position(l.drop_first(), name)
    }
}

/// The entries of `l` by their keys.
pub open spec fn as_map<T: Keyed>(l: Seq<T>) -> Map<Seq<char>, T> {
    Map::new(|n: Seq<char>| position(l, n) < l.len(), |n: Seq<char>| l[position(l, n)])
}

/// `position` is the one place before which no entry has the key and at
/// which one has, or the end.
pub proof fn lemma_position<T: Keyed>(l: Seq<T>, name: Seq<char>, n: int)
    requires
        0 <= n <= l.len(),
        forall|k: int| 0 <= k < n ==> (#[trigger] l[k]).key() != name,
        n < l.len() ==> l[n].key() == name,
    ensures
        position(l, name) == n,
    decreases l.len(),
{
    if l.len() != 0 && n != 0 {
        let t = l.drop_first();
        assert(l[0].key() != name);
        assert forall|k: int| 0 <= k < n - 1 implies (#[trigger] t[k]).key() != name by {
            assert(t[k] == l[k + 1]);
        }
        lemma_position(t, name, n - 1);
    }
}

/// What `lemma_position` asks holds of `position` itself.
pub proof fn lemma_position_bounds<T: Keyed>(l: Seq<T>, name: Seq<char>)
    ensures
        0 <= position(l, name) <= l.len(),
        forall|k: int| 0 <= k < position(l, name) ==> (#[trigger] l[k]).key() != name,
        position(l, name) < l.len() ==> l[position(l, name)].key() == name,
    decreases l.len(),
{
    if l.len() != 0 && l[0].key() != name {
        let t = l.drop_first();
        lemma_position_bounds(t, name);
        assert forall|k: int| 0 <= k < position(l, name) implies (#[trigger] l[k]).key()
            != name by {
            if k > 0 {
                assert(l[k] == t[k - 1]);
            }
        }
    }
}

/// A key has an entry in the map of a list exactly where an entry of the
/// list has that key.
pub proof fn lemma_listed_keys<T: Keyed>(l: Seq<T>, name: Seq<char>)
    ensures
        as_map(l).dom().contains(name) <==> exists|i: int|
            0 <= i < l.len() && (#[trigger] l[i]).key() == name,
{
    lemma_position_bounds(l, name);
    if position(l, name) < l.len() {
        assert(l[position(l, name)].key() == name);
    }
}

/// In a list in the order of the keys, each entry is the one found under
/// its key.
pub proof fn lemma_sorted_lookup<T: Keyed>(l: Seq<T>, i: int)
    requires
        sorted_by_key(l),
        0 <= i < l.len(),
    ensures
        position(l, l[i].key()) == i,
        as_map(l).dom().contains(l[i].key()),
        as_map(l)[l[i].key()] == l[i],
{
    assert forall|k: int| 0 <= k < i implies (#[trigger] l[k]).key() != l[i].key() by {
        assert(text_order(l[k].key(), l[i].key()) < 0);
        lemma_text_order_equal(l[k].key(), l[i].key());
    }
    lemma_position(l, l[i].key(), i);
}

/// Two lists in the order of the keys that hold the same entries by key
/// are the same list.
pub proof fn lemma_sorted_listing_unique<T: Keyed>(a: Seq<T>, b: Seq<T>)
    requires
        sorted_by_key(a),
        sorted_by_key(b),
        as_map(a) == as_map(b),
    ensures
        a == b,
    decreases a.len(),
{
    if a.len() == 0 {
        if b.len() != 0 {
            lemma_sorted_lookup(b, 0);
            lemma_position_bounds(a, b[0].key());
        }
        assert(a =~= b);
    } else if b.len() == 0 {
        lemma_sorted_lookup(a, 0);
        lemma_position_bounds(b, a[0].key());
    } else {
        // The two first entries are each the least of the same keys.
        lemma_sorted_lookup(a, 0);
        lemma_sorted_lookup(b, 0);
        lemma_position_bounds(b, a[0].key());
        lemma_position_bounds(a, b[0].key());
        let p = position(b, a[0].key());
        let q = position(a, b[0].key());
        assert(as_map(b).dom().contains(a[0].key()));
        assert(as_map(a).dom().contains(b[0].key()));
        if p != 0 {
            assert(text_order(b[0].key(), b[p].key()) < 0);
            if q != 0 {
                assert(text_order(a[0].key(), a[q].key()) < 0);
                lemma_text_order_swap(a[0].key(), b[0].key());
            } else {
                lemma_text_order_equal(b[0].key(), a[0].key());
            }
        }
        assert(a[0] == b[0]);
        let ta = a.drop_first();
        let tb = b.drop_first();
        assert(sorted_by_key(ta)) by {
            assert forall|i: int, j: int| 0 <= i < j < ta.len() implies text_order(
                (#[trigger] ta[i]).key(),
                (#[trigger] ta[j]).key(),
            ) < 0 by {
                assert(ta[i] == a[i + 1] && ta[j] == a[j + 1]);
            }
        }
        assert(sorted_by_key(tb)) by {
            assert forall|i: int, j: int| 0 <= i < j < tb.len() implies text_order(
                (#[trigger] tb[i]).key(),
                (#[trigger] tb[j]).key(),
            ) < 0 by {
                assert(tb[i] == b[i + 1] && tb[j] == b[j + 1]);
            }
        }
        assert(as_map(ta) =~= as_map(tb)) by {
            lemma_tail_map(a);
            lemma_tail_map(b);
        }
        lemma_sorted_listing_unique(ta, tb);
        assert(a =~= seq![a[0]] + ta);
        assert(b =~= seq![b[0]] + tb);
    }
}

/// Behind the first entry of a list in the order of the keys stand the
/// entries of all the other keys.
proof fn lemma_tail_map<T: Keyed>(l: Seq<T>)
    requires
        sorted_by_key(l),
        l.len() > 0,
    ensures
        as_map(l.drop_first()) =~= as_map(l).remove(l[0].key()),
{
    let t = l.drop_first();
    assert forall|n: Seq<char>| as_map(t).dom().contains(n) <==> as_map(l).remove(
        l[0].key(),
    ).dom().contains(n) by {
        lemma_position_bounds(t, n);
        if n == l[0].key() && position(t, n) < t.len() {
            let k = position(t, n);
            assert(t[k] == l[k + 1]);
            assert(text_order(l[0].key(), l[k + 1].key()) < 0);
            lemma_text_order_equal(l[0].key(), l[k + 1].key());
        }
    }
    assert forall|n: Seq<char>| as_map(t).dom().contains(n) implies #[trigger] as_map(t)[n]
        == as_map(l).remove(l[0].key())[n] by {
        lemma_position_bounds(t, n);
        let k = position(t, n);
        assert(t[k] == l[k + 1]);
        if n == l[0].key() {
            assert(text_order(l[0].key(), l[k + 1].key()) < 0);
            lemma_text_order_equal(l[0].key(), l[k + 1].key());
        }
    }
}

/// Putting an entry in the place of the one that has its key keeps the
/// order, and changes the entry under that key alone.
pub proof fn lemma_replace<T: Keyed>(l: Seq<T>, p: int, e: T)
    requires
        sorted_by_key(l),
        0 <= p < l.len(),
        l[p].key() == e.key(),
    ensures
        sorted_by_key(l.update(p, e)),
        as_map(l.update(p, e)) =~= as_map(l).insert(e.key(), e),
{
    let m = l.update(p, e);
    assert forall|i: int, j: int| 0 <= i < j < m.len() implies text_order(
        (#[trigger] m[i]).key(),
        (#[trigger] m[j]).key(),
    ) < 0 by {
        assert(m[i].key() == l[i].key() && m[j].key() == l[j].key());
    }
    let target = as_map(l).insert(e.key(), e);
    assert forall|n: Seq<char>|
        (#[trigger] as_map(m).dom().contains(n) <==> target.dom().contains(n)) && (as_map(
            m,
        ).dom().contains(n) ==> as_map(m)[n] == target[n]) by {
        lemma_position_bounds(l, n);
        let q = position(l, n);
        if q < l.len() {
            assert(m[q].key() == l[q].key());
            lemma_sorted_lookup(m, q);
            lemma_sorted_lookup(l, p);
        } else {
            assert forall|k: int| 0 <= k < m.len() implies (#[trigger] m[k]).key() != n by {
                assert(l[k].key() != n);
            }
            lemma_position(m, n, m.len() as int);
        }
    }
    assert(as_map(m).dom() =~= target.dom());
    assert(as_map(m) =~= target);
}

/// Putting a new key's entry at its place in the order keeps the order,
/// and adds the entry under that key alone.
pub proof fn lemma_insert<T: Keyed>(l: Seq<T>, p: int, e: T)
    requires
        sorted_by_key(l),
        0 <= p <= l.len(),
        forall|k: int| 0 <= k < p ==> text_order((#[trigger] l[k]).key(), e.key()) < 0,
        p < l.len() ==> text_order(e.key(), l[p].key()) < 0,
    ensures
        sorted_by_key(l.insert(p, e)),
        as_map(l.insert(p, e)) =~= as_map(l).insert(e.key(), e),
{
    let m = l.insert(p, e);
    assert forall|k: int| p <= k < l.len() implies text_order(e.key(), (#[trigger] l[k]).key())
        < 0 by {
        if k > p {
            assert(text_order(l[p].key(), l[k].key()) < 0);
            lemma_text_order_transitive(e.key(), l[p].key(), l[k].key());
        }
    }
    assert forall|i: int, j: int| 0 <= i < j < m.len() implies text_order(
        (#[trigger] m[i]).key(),
        (#[trigger] m[j]).key(),
    ) < 0 by {
        if j < p {
            assert(m[i] == l[i] && m[j] == l[j]);
        } else if j == p {
            assert(m[i] == l[i]);
        } else if i < p {
            assert(m[i] == l[i] && m[j] == l[j - 1]);
        } else if i == p {
            assert(m[j] == l[j - 1]);
        } else {
            assert(m[i] == l[i - 1] && m[j] == l[j - 1]);
        }
    }
    let target = as_map(l).insert(e.key(), e);
    assert forall|n: Seq<char>|
        (#[trigger] as_map(m).dom().contains(n) <==> target.dom().contains(n)) && (as_map(
            m,
        ).dom().contains(n) ==> as_map(m)[n] == target[n]) by {
        lemma_position_bounds(l, n);
        let q = position(l, n);
        if n == e.key() {
            lemma_sorted_lookup(m, p);
        } else if q < l.len() {
            if q < p {
                assert(m[q] == l[q]);
                lemma_sorted_lookup(m, q);
            } else {
                assert(m[q + 1] == l[q]);
                lemma_sorted_lookup(m, q + 1);
            }
        } else {
            assert forall|k: int| 0 <= k < m.len() implies (#[trigger] m[k]).key() != n by {
                if k < p {
                    assert(m[k] == l[k]);
                } else if k > p {
                    assert(m[k] == l[k - 1]);
                }
            }
            lemma_position(m, n, m.len() as int);
        }
    }
    assert(as_map(m).dom() =~= target.dom());
    assert(as_map(m) =~= target);
}

/// The entries of `map` in the order of their keys.
pub open spec fn sorted_listing<T: Keyed>(map: Map<Seq<char>, T>) -> Seq<T> {
    choose|l: Seq<T>| sorted_by_key(l) && as_map(l) == map
}

/// A list in the order of the keys is the listing of what it holds.
pub proof fn lemma_sorted_listing<T: Keyed>(l: Seq<T>)
    requires
        sorted_by_key(l),
    ensures
        sorted_listing(as_map(l)) == l,
{
    let found = sorted_listing(as_map(l));
    assert(sorted_by_key(found) && as_map(found) == as_map(l));
    lemma_sorted_listing_unique(found, l);
}

/// The views of the entries of `v`, in order.
pub open spec fn entry_views<T: View>(v: Seq<T>) -> Seq<T::V> {
    Seq::new(v.len(), |i: int| v[i]@)
}

/// A set of entries with one entry to a key, kept in the order of the
/// keys.
#[derive(Debug)]
pub struct Ordered<T: Entry> where T::V: Keyed {
    entries: Vec<T>,
}

impl<T: Entry> Clone for Ordered<T> where T::V: Keyed {
    fn clone(&self) -> (copy: Ordered<T>)
        ensures
            copy.listing() == self.listing(),
    {
        self.duplicate()
    }
}

impl<T: Entry> View for Ordered<T> where T::V: Keyed {
    type V = Map<Seq<char>, T::V>;

    /// The entries by their keys.
    open spec fn view(&self) -> Map<Seq<char>, T::V> {
        as_map(self.listing())
    }
}

impl<T: Entry> Ordered<T> where T::V: Keyed {
    /// The entries in the order in which they are kept.
    pub closed spec fn listing(&self) -> Seq<T::V> {
        entry_views(self.entries@)
    }

    /// The entries stand in the order of their keys, so no key occurs
    /// twice. This holds of every set.
    #[verifier::type_invariant]
    pub open spec fn wf(&self) -> bool {
        sorted_by_key(self.listing())
    }

    /// The set without entries.
    pub fn new() -> (set: Ordered<T>)
        ensures
            set.wf(),
            set.listing() == Seq::<T::V>::empty(),
            set@ == Map::<Seq<char>, T::V>::empty(),
    {
        let entries: Vec<T> = Vec::new();
        assert(entry_views(entries@) =~= Seq::<T::V>::empty());
        let set = Ordered { entries };
        assert(set@ =~= Map::<Seq<char>, T::V>::empty());
        set
    }

    /// The number of entries.
    pub fn len(&self) -> (n: usize)
        ensures
            n == self.listing().len(),
    {
        self.entries.len()
    }

    /// Whether the set has no entry.
    pub fn is_empty(&self) -> (empty: bool)
        ensures
            empty == (self.listing().len() == 0),
    {
        self.entries.len() == 0
    }

    /// The entry at place `i` of the listing.
    pub fn entry(&self, i: usize) -> (e: &T)
        requires
            i < self.listing().len(),
        ensures
            e@ == self.listing()[i as int],
    {
        &self.entries[i]
    }

    /// The place of the entry under `name`, if there is one.
    pub fn find(&self, name: &str) -> (place: Option<usize>)
        ensures
            place is Some <==> self@.dom().contains(name@),
            place is Some ==> place->0 < self.listing().len() && self.listing()[place->0 as int]
                == self@[name@] && self@[name@].key() == name@,
    {
        proof {
            use_type_invariant(self);
        }
        let wanted = chars_of(name);
        let mut i: usize = 0;
        while i < self.entries.len()
            invariant
                i <= self.entries.len(),
                wanted@ == name@,
                forall|k: int| 0 <= k < i ==> (#[trigger] self.listing()[k]).key() != name@,
            decreases self.entries.len() - i,
        {
            let here = chars_of(self.entries[i].name());
            if order_of(&here, &wanted) == 0 {
                proof {
                    lemma_text_order_equal(here@, wanted@);
                    lemma_position(self.listing(), name@, i as int);
                }
                return Some(i);
            }
            proof {
                lemma_text_order_equal(here@, wanted@);
            }
            i += 1;
        }
        proof {
            lemma_position(self.listing(), name@, i as int);
        }
        None
    }

    /// Whether the set has an entry under `name`.
    pub fn contains_key(&self, name: &str) -> (found: bool)
        ensures
            found == self@.dom().contains(name@),
    {
        self.find(name).is_some()
    }

    /// The entry under `name`, if there is one.
    pub fn get(&self, name: &str) -> (found: Option<&T>)
        ensures
            found is Some <==> self@.dom().contains(name@),
            found is Some ==> found->0@ == self@[name@],
    {
        match self.find(name) {
            Some(i) => Some(&self.entries[i]),
            None => None,
        }
    }

    /// The place in the order at which `name` stands or would stand, and
    /// whether it stands there.
    fn slot(&self, name: &Vec<char>) -> (at: (usize, bool))
        ensures
            at.0 <= self.listing().len(),
            forall|k: int|
                0 <= k < at.0 ==> text_order((#[trigger] self.listing()[k]).key(), name@) < 0,
            at.1 ==> at.0 < self.listing().len() && self.listing()[at.0 as int].key() == name@,
            !at.1 && at.0 < self.listing().len() ==> text_order(
                name@,
                self.listing()[at.0 as int].key(),
            ) < 0,
    {
        let mut i: usize = 0;
        while i < self.entries.len()
            invariant
                i <= self.entries.len(),
                forall|k: int|
                    0 <= k < i ==> text_order((#[trigger] self.listing()[k]).key(), name@) < 0,
            decreases self.entries.len() - i,
        {
            let here = chars_of(self.entries[i].name());
            let order = order_of(&here, name);
            proof {
                lemma_text_order_equal(here@, name@);
                lemma_text_order_swap(here@, name@);
            }
            if order == 0 {
                return (i, true);
            }
            if order > 0 {
                return (i, false);
            }
            i += 1;
        }
        (i, false)
    }

    /// Puts `entry` into the set, in the place of the entry that has its
    /// key where there is one.
    pub fn insert(&mut self, entry: T)
        ensures
            final(self).wf(),
            final(self)@ == old(self)@.insert(entry@.key(), entry@),
    {
        proof {
            use_type_invariant(&*self);
        }
        let name = chars_of(entry.name());
        let (i, present) = self.slot(&name);
        let ghost before = self.listing();
        let ghost e = entry@;
        let mut entries: Vec<T> = Vec::new();
        assert(entry_views(entries@) =~= Seq::<T::V>::empty());
        core::mem::swap(&mut entries, &mut self.entries);
        if present {
            entries[i] = entry;
            proof {
                assert(entry_views(entries@) =~= before.update(i as int, e));
                lemma_replace(before, i as int, e);
            }
        } else {
            entries.insert(i, entry);
            proof {
                assert(entry_views(entries@) =~= before.insert(i as int, e));
                lemma_insert(before, i as int, e);
            }
        }
        self.entries = entries;
    }

    /// The entries of both sets; where both have one for a key, that of
    /// `other` counts.
    pub fn merge(&self, other: &Ordered<T>) -> (merged: Ordered<T>)
        ensures
            merged.wf(),
            merged@ == self@.union_prefer_right(other@),
    {
        proof {
            use_type_invariant(self);
            use_type_invariant(other);
        }
        let mut merged = self.duplicate();
        let ghost l = other.listing();
        let mut i: usize = 0;
        proof {
            assert forall|n: Seq<char>| position(l, n) >= 0 by {
                lemma_position_bounds(l, n);
            }
        }
        while i < other.entries.len()
            invariant
                i <= other.entries.len(),
                l == other.listing(),
                other.wf(),
                merged.wf(),
                forall|n: Seq<char>| #[trigger]
                    merged@.dom().contains(n) <==> self@.dom().contains(n) || position(l, n) < i,
                forall|n: Seq<char>| #[trigger]
                    merged@.dom().contains(n) ==> merged@[n] == if position(l, n) < i {
                        other@[n]
                    } else {
                        self@[n]
                    },
            decreases other.entries.len() - i,
        {
            let ghost before = merged@;
            let ghost name = l[i as int].key();
            proof {
                lemma_sorted_lookup(l, i as int);
            }
            merged.insert(other.entries[i].duplicate());
            proof {
                assert forall|n: Seq<char>| #[trigger]
                    merged@.dom().contains(n) <==> self@.dom().contains(n) || position(l, n) < i
                        + 1 by {
                    lemma_position_bounds(l, n);
                    if n != name && position(l, n) == i {
                        assert(l[i as int].key() == n);
                    }
                    assert(before.dom().contains(n) <==> self@.dom().contains(n) || position(l, n)
                        < i);
                }
                assert forall|n: Seq<char>| #[trigger] merged@.dom().contains(n) implies merged@[n]
                    == if position(l, n) < i + 1 {
                    other@[n]
                } else {
                    self@[n]
                } by {
                    lemma_position_bounds(l, n);
                    if n != name {
                        assert(before.dom().contains(n));
                        if position(l, n) == i {
                            assert(l[i as int].key() == n);
                        }
                    }
                }
            }
            i += 1;
        }
        proof {
            let target = self@.union_prefer_right(other@);
            assert forall|n: Seq<char>| #[trigger]
                merged@.dom().contains(n) <==> target.dom().contains(n) by {
                lemma_position_bounds(l, n);
            }
            assert(merged@.dom() =~= target.dom());
            assert forall|n: Seq<char>| #[trigger] merged@.dom().contains(n) implies merged@[n]
                == target[n] by {
                lemma_position_bounds(l, n);
            }
            assert(merged@ =~= target);
        }
        merged
    }

    /// A copy of the set.
    pub fn duplicate(&self) -> (copy: Ordered<T>)
        ensures
            copy.wf(),
            copy.listing() == self.listing(),
    {
        proof {
            use_type_invariant(self);
        }
        let mut entries: Vec<T> = Vec::new();
        let mut i: usize = 0;
        while i < self.entries.len()
            invariant
                i <= self.entries.len(),
                entries@.len() == i,
                forall|k: int| 0 <= k < i ==> (#[trigger] entries@[k])@ == self.entries@[k]@,
            decreases self.entries.len() - i,
        {
            entries.push(self.entries[i].duplicate());
            i += 1;
        }
        assert(entry_views(entries@) =~= self.listing());
        Ordered { entries }
    }
}

impl Keyed for Seq<char> {
    /// A name is kept under itself.
    open spec fn key(&self) -> Seq<char> {
        *self
    }
}

impl Entry for String {
    fn name(&self) -> (n: &str) {
        self.as_str()
    }

    fn duplicate(&self) -> (copy: String) {
        self.clone()
    }
}

/// A set of names, kept in the order of a dictionary.
pub type NameSet = Ordered<String>;

} // verus!

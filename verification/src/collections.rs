//! Ordered identifier collections: a set and a map keyed by identifier,
//! each held as a vector sorted strictly by identifier text.

use crate::model::{ids_view, Identifier};
use crate::text::{lemma_seq_lt_asymmetric, lemma_seq_lt_irreflexive, lemma_seq_lt_total, lemma_seq_lt_transitive, seq_lt, str_lt};
use vstd::prelude::*;

verus! {

/// Texts in strictly increasing lexicographic order.
pub open spec fn strictly_sorted(s: Seq<Seq<char>>) -> bool {
    forall|i: int, j: int| 0 <= i < j < s.len() ==> seq_lt(#[trigger] s[i], #[trigger] s[j])
}

/// In a strictly sorted sequence, an element that is not found before the
/// first position not below it is absent.
proof fn lemma_sorted_absent(s: Seq<Seq<char>>, x: Seq<char>, k: int)
    requires
        strictly_sorted(s),
        0 <= k <= s.len(),
        forall|i: int| 0 <= i < k ==> seq_lt(#[trigger] s[i], x),
        k < s.len() ==> seq_lt(x, s[k]),
    ensures
        !s.contains(x),
{
    if s.contains(x) {
        let i = choose|i: int| 0 <= i < s.len() && s[i] == x;
        if i < k {
            lemma_seq_lt_irreflexive(x);
        } else if i == k {
            lemma_seq_lt_irreflexive(x);
        } else {
            assert(seq_lt(s[k], s[i]));
            lemma_seq_lt_asymmetric(x, s[k]);
        }
    }
}

/// Strictly sorted texts are fixed by their members: two strictly sorted
/// lists of the same set of texts are one list. So an identifier set does not
/// depend on the order in which its members were inserted or declared.
pub proof fn lemma_sorted_texts_are_canonical(a: Seq<Seq<char>>, b: Seq<Seq<char>>)
    requires
        strictly_sorted(a),
        strictly_sorted(b),
        a.to_set() == b.to_set(),
    ensures
        a == b,
    decreases a.len() + b.len(),
{
    if a.len() == 0 || b.len() == 0 {
        if a.len() > 0 {
            assert(a.to_set().contains(a[0]));
        } else if b.len() > 0 {
            assert(b.to_set().contains(b[0]));
        }
        assert(a =~= b);
    } else {
        assert(a.to_set().contains(a[0]));
        assert(b.to_set().contains(b[0]));
        let j = choose|j: int| 0 <= j < b.len() && b[j] == a[0];
        let i = choose|i: int| 0 <= i < a.len() && a[i] == b[0];
        if i != 0 {
            assert(seq_lt(a[0], a[i]));
            if j != 0 {
                assert(seq_lt(b[0], b[j]));
                lemma_seq_lt_asymmetric(a[0], b[0]);
            }
        }
        assert(a[0] == b[0]);
        let a1 = a.drop_first();
        let b1 = b.drop_first();
        assert forall|x: Seq<char>| a1.to_set().contains(x) <==> b1.to_set().contains(x) by {
            if a1.to_set().contains(x) {
                let q = choose|q: int| 0 <= q < a1.len() && a1[q] == x;
                assert(a[q + 1] == x);
                assert(a.to_set().contains(x));
                assert(b.to_set().contains(x));
                let r = choose|r: int| 0 <= r < b.len() && b[r] == x;
                if r == 0 {
                    assert(seq_lt(a[0], a[q + 1]));
                    lemma_seq_lt_irreflexive(x);
                }
                assert(b1[r - 1] == x);
            }
            if b1.to_set().contains(x) {
                let q = choose|q: int| 0 <= q < b1.len() && b1[q] == x;
                assert(b[q + 1] == x);
                assert(b.to_set().contains(x));
                assert(a.to_set().contains(x));
                let r = choose|r: int| 0 <= r < a.len() && a[r] == x;
                if r == 0 {
                    assert(seq_lt(b[0], b[q + 1]));
                    lemma_seq_lt_irreflexive(x);
                }
                assert(a1[r - 1] == x);
            }
        }
        assert(a1.to_set() =~= b1.to_set());
        lemma_sorted_texts_are_canonical(a1, b1);
        assert forall|q: int| 0 <= q < a.len() implies a[q] == b[q] by {
            if q > 0 {
                assert(a[q] == a1[q - 1]);
                assert(b[q] == b1[q - 1]);
            }
        }
        assert(a =~= b);
    }
}

/// A set of identifiers, iterated in identifier order.
#[derive(Debug)]
pub struct IdentifierSet {
    items: Vec<Identifier>,
}

impl View for IdentifierSet {
    type V = Seq<Seq<char>>;

    closed spec fn view(&self) -> Seq<Seq<char>> {
        ids_view(self.items@)
    }
}

impl IdentifierSet {
    #[verifier::type_invariant]
    closed spec fn inv(self) -> bool {
        strictly_sorted(ids_view(self.items@))
    }

    /// Creates an empty set.
    pub fn new() -> (r: Self)
        ensures
            r@ == Seq::<Seq<char>>::empty(),
    {
        let r = IdentifierSet { items: Vec::new() };
        assert(r@ =~= Seq::<Seq<char>>::empty());
        r
    }

    /// Inserts an identifier; returns whether it was absent.
    pub fn insert(&mut self, id: Identifier) -> (r: bool)
        ensures
            r == !old(self)@.contains(id@),
            r ==> exists|k: int|
                0 <= k <= old(self)@.len() && final(self)@ == old(self)@.insert(k, id@),
            !r ==> final(self)@ == old(self)@,
            strictly_sorted(final(self)@),
    {
        proof {
            use_type_invariant(&*self);
        }
        let ghost old_view = self@;
        let n = self.items.len();
        let mut k: usize = 0;
        while k < n && str_lt(self.items[k].as_str(), id.as_str())
            invariant
                n == self.items@.len(),
                self@ == old_view,
                strictly_sorted(old_view),
                0 <= k <= n,
                forall|i: int| 0 <= i < k ==> seq_lt(#[trigger] old_view[i], id@),
            decreases n - k,
        {
            k = k + 1;
        }
        if k < n && self.items[k] == id {
            proof {
                assert(old_view[k as int] == id@);
            }
            return false;
        }
        proof {
            if k < n {
                lemma_seq_lt_total(old_view[k as int], id@);
            }
            lemma_sorted_absent(old_view, id@, k as int);
        }
        let ghost idv = id@;
        let mut items = Vec::new();
        std::mem::swap(&mut items, &mut self.items);
        items.insert(k, id);
        proof {
            assert forall|m: int| k <= m < old_view.len() implies seq_lt(idv, #[trigger] old_view[m]) by {
                if m > k {
                    lemma_seq_lt_transitive(idv, old_view[k as int], old_view[m]);
                }
            }
            let s = ids_view(items@);
            assert(s =~= old_view.insert(k as int, idv));
            assert forall|i: int, j: int| 0 <= i < j < s.len() implies seq_lt(
                #[trigger] s[i],
                #[trigger] s[j],
            ) by {
                if j < k {
                } else if i < k && j == k {
                } else if i < k && j > k {
                    assert(seq_lt(idv, old_view[j - 1]));
                    lemma_seq_lt_transitive(old_view[i], idv, old_view[j - 1]);
                } else if i == k {
                    assert(seq_lt(idv, old_view[j - 1]));
                } else {
                }
            }
        }
        self.items = items;
        true
    }

    /// Whether the set holds the identifier.
    pub fn contains(&self, id: &Identifier) -> (r: bool)
        ensures
            r == self@.contains(id@),
    {
        let n = self.items.len();
        let mut i: usize = 0;
        while i < n
            invariant
                n == self.items@.len(),
                0 <= i <= n,
                forall|j: int| 0 <= j < i ==> self@[j] != id@,
            decreases n - i,
        {
            if self.items[i] == *id {
                assert(self@[i as int] == id@);
                return true;
            }
            i = i + 1;
        }
        false
    }

    /// The number of identifiers; they are held in strictly increasing order.
    pub fn len(&self) -> (r: usize)
        ensures
            r == self@.len(),
            strictly_sorted(self@),
    {
        proof {
            use_type_invariant(self);
        }
        self.items.len()
    }

    /// The identifier at a position in identifier order.
    pub fn get(&self, index: usize) -> (r: &Identifier)
        requires
            index < self@.len(),
        ensures
            r@ == self@[index as int],
    {
        &self.items[index]
    }
}

/// The text view of one selection entry.
pub open spec fn entry_view(e: (Identifier, Vec<Identifier>)) -> (Seq<char>, Seq<Seq<char>>) {
    (e.0@, ids_view(e.1@))
}

/// The keys of a sequence of entries.
pub open spec fn keys_of(s: Seq<(Seq<char>, Seq<Seq<char>>)>) -> Seq<Seq<char>> {
    s.map_values(|e: (Seq<char>, Seq<Seq<char>>)| e.0)
}

/// The value of the first entry with key `k`.
pub open spec fn lookup(s: Seq<(Seq<char>, Seq<Seq<char>>)>, k: Seq<char>) -> Option<
    Seq<Seq<char>>,
>
    decreases s.len(),
{
    if s.len() == 0 {
        None
    } else {
        match lookup(s.drop_last(), k) {
            Some(v) => Some(v),
            None => if s.last().0 == k {
                Some(s.last().1)
            } else {
                None
            },
        }
    }
}

/// `lookup` finds the first entry with the key.
pub proof fn lemma_lookup_first(s: Seq<(Seq<char>, Seq<Seq<char>>)>, k: Seq<char>, i: int)
    requires
        0 <= i < s.len(),
        s[i].0 == k,
        forall|j: int| 0 <= j < i ==> (#[trigger] s[j]).0 != k,
    ensures
        lookup(s, k) == Some(s[i].1),
    decreases s.len(),
{
    if i < s.len() - 1 {
        lemma_lookup_first(s.drop_last(), k, i);
    } else {
        lemma_lookup_absent(s.drop_last(), k);
    }
}

/// `lookup` finds nothing when no entry has the key.
pub proof fn lemma_lookup_absent(s: Seq<(Seq<char>, Seq<Seq<char>>)>, k: Seq<char>)
    requires
        forall|j: int| 0 <= j < s.len() ==> (#[trigger] s[j]).0 != k,
    ensures
        lookup(s, k) is None,
    decreases s.len(),
{
    if s.len() > 0 {
        assert(s.last() == s[s.len() - 1]);
        lemma_lookup_absent(s.drop_last(), k);
    }
}

/// With strictly sorted keys, `lookup` finds the entry holding the key, if any.
pub proof fn lemma_lookup_sorted(s: Seq<(Seq<char>, Seq<Seq<char>>)>, k: Seq<char>)
    requires
        strictly_sorted(keys_of(s)),
    ensures
        forall|i: int| 0 <= i < s.len() && (#[trigger] s[i]).0 == k ==> lookup(s, k) == Some(s[i].1),
        (forall|i: int| 0 <= i < s.len() ==> (#[trigger] s[i]).0 != k) ==> lookup(s, k) is None,
{
    assert forall|i: int| 0 <= i < s.len() && (#[trigger] s[i]).0 == k implies lookup(s, k) == Some(s[i].1) by {
        assert forall|j: int| 0 <= j < i implies (#[trigger] s[j]).0 != k by {
            assert(keys_of(s)[j] == s[j].0);
            assert(keys_of(s)[i] == s[i].0);
            assert(seq_lt(keys_of(s)[j], keys_of(s)[i]));
            lemma_seq_lt_irreflexive(k);
        }
        lemma_lookup_first(s, k, i);
    }
    if forall|i: int| 0 <= i < s.len() ==> (#[trigger] s[i]).0 != k {
        lemma_lookup_absent(s, k);
    }
}

/// Setting a key's value in a map with strictly sorted keys changes what
/// `lookup` finds for that key alone.
pub proof fn lemma_lookup_after_set(
    old: Seq<(Seq<char>, Seq<Seq<char>>)>,
    new: Seq<(Seq<char>, Seq<Seq<char>>)>,
    key: Seq<char>,
    value: Seq<Seq<char>>,
    m: int,
    inserted: bool,
)
    requires
        strictly_sorted(keys_of(old)),
        strictly_sorted(keys_of(new)),
        inserted ==> 0 <= m <= old.len() && new == old.insert(m, (key, value)),
        !inserted ==> 0 <= m < old.len() && old[m].0 == key && new == old.update(m, (key, value)),
    ensures
        forall|k: Seq<char>| #[trigger] lookup(new, k) == if k == key { Some(value) } else { lookup(old, k) },
{
    assert forall|k: Seq<char>| #[trigger] lookup(new, k) == if k == key { Some(value) } else { lookup(old, k) } by {
        lemma_lookup_sorted(new, k);
        lemma_lookup_sorted(old, k);
        if k == key {
            assert(new[m].0 == k);
        } else {
            if exists|j: int| 0 <= j < old.len() && (#[trigger] old[j]).0 == k {
                let j = choose|j: int| 0 <= j < old.len() && (#[trigger] old[j]).0 == k;
                if inserted {
                    if j < m {
                        assert(new[j] == old[j]);
                    } else {
                        assert(new[j + 1] == old[j]);
                    }
                } else {
                    assert(new[j] == old[j]);
                }
            } else {
                assert forall|q: int| 0 <= q < new.len() implies (#[trigger] new[q]).0 != k by {
                    if inserted {
                        if q < m {
                            assert(new[q] == old[q]);
                        } else if q > m {
                            assert(new[q] == old[q - 1]);
                        }
                    } else if q != m {
                        assert(new[q] == old[q]);
                    }
                }
            }
        }
    }
}

/// Entries with strictly sorted keys are fixed by what they map: two such
/// entry lists that look up every key alike are one list. So a selection map
/// does not depend on the order in which its selections were set.
pub proof fn lemma_sorted_entries_are_canonical(
    a: Seq<(Seq<char>, Seq<Seq<char>>)>,
    b: Seq<(Seq<char>, Seq<Seq<char>>)>,
)
    requires
        strictly_sorted(keys_of(a)),
        strictly_sorted(keys_of(b)),
        forall|k: Seq<char>| #[trigger] lookup(a, k) == lookup(b, k),
    ensures
        a == b,
    decreases a.len() + b.len(),
{
    if a.len() == 0 || b.len() == 0 {
        if a.len() > 0 {
            lemma_lookup_sorted(a, a[0].0);
            lemma_lookup_sorted(b, a[0].0);
            assert(lookup(a, a[0].0) == lookup(b, a[0].0));
        } else if b.len() > 0 {
            lemma_lookup_sorted(a, b[0].0);
            lemma_lookup_sorted(b, b[0].0);
            assert(lookup(a, b[0].0) == lookup(b, b[0].0));
        }
        assert(a =~= b);
    } else {
        let ka = a[0].0;
        let kb = b[0].0;
        lemma_lookup_sorted(a, ka);
        lemma_lookup_sorted(b, ka);
        lemma_lookup_sorted(a, kb);
        lemma_lookup_sorted(b, kb);
        assert(lookup(a, ka) == lookup(b, ka));
        assert(lookup(a, kb) == lookup(b, kb));
        let j = choose|j: int| 0 <= j < b.len() && (#[trigger] b[j]).0 == ka;
        let i = choose|i: int| 0 <= i < a.len() && (#[trigger] a[i]).0 == kb;
        assert(keys_of(a)[0] == ka && keys_of(b)[0] == kb);
        assert(keys_of(a)[i] == kb && keys_of(b)[j] == ka);
        if i != 0 {
            assert(seq_lt(ka, kb));
            if j != 0 {
                assert(seq_lt(kb, ka));
                lemma_seq_lt_asymmetric(ka, kb);
            }
        }
        assert(ka == kb);
        assert(a[0] == b[0]);
        let a1 = a.drop_first();
        let b1 = b.drop_first();
        assert(keys_of(a1) =~= keys_of(a).drop_first());
        assert(keys_of(b1) =~= keys_of(b).drop_first());
        assert forall|k: Seq<char>| #[trigger] lookup(a1, k) == lookup(b1, k) by {
            lemma_lookup_sorted(a1, k);
            lemma_lookup_sorted(b1, k);
            lemma_lookup_sorted(a, k);
            lemma_lookup_sorted(b, k);
            assert(lookup(a, k) == lookup(b, k));
            if k == ka {
                assert forall|q: int| 0 <= q < a1.len() implies (#[trigger] a1[q]).0 != k by {
                    assert(keys_of(a)[q + 1] == a1[q].0);
                    assert(seq_lt(keys_of(a)[0], keys_of(a)[q + 1]));
                    lemma_seq_lt_irreflexive(k);
                }
                assert forall|q: int| 0 <= q < b1.len() implies (#[trigger] b1[q]).0 != k by {
                    assert(keys_of(b)[q + 1] == b1[q].0);
                    assert(seq_lt(keys_of(b)[0], keys_of(b)[q + 1]));
                    lemma_seq_lt_irreflexive(k);
                }
            } else {
                if exists|q: int| 0 <= q < a1.len() && (#[trigger] a1[q]).0 == k {
                    let q = choose|q: int| 0 <= q < a1.len() && (#[trigger] a1[q]).0 == k;
                    assert(a[q + 1] == a1[q]);
                } else {
                    assert forall|q: int| 0 <= q < a.len() implies (#[trigger] a[q]).0 != k by {
                        if q > 0 {
                            assert(a[q] == a1[q - 1]);
                        }
                    }
                }
                if exists|q: int| 0 <= q < b1.len() && (#[trigger] b1[q]).0 == k {
                    let q = choose|q: int| 0 <= q < b1.len() && (#[trigger] b1[q]).0 == k;
                    assert(b[q + 1] == b1[q]);
                } else {
                    assert forall|q: int| 0 <= q < b.len() implies (#[trigger] b[q]).0 != k by {
                        if q > 0 {
                            assert(b[q] == b1[q - 1]);
                        }
                    }
                }
            }
        }
        lemma_sorted_entries_are_canonical(a1, b1);
        assert forall|q: int| 0 <= q < a.len() implies a[q] == b[q] by {
            if q > 0 {
                assert(a[q] == a1[q - 1]);
                assert(b[q] == b1[q - 1]);
            }
        }
        assert(a =~= b);
    }
}

/// Overlay selections keyed by class, iterated in class-identifier order.
#[derive(Debug)]
pub struct SelectionMap {
    entries: Vec<(Identifier, Vec<Identifier>)>,
}

impl View for SelectionMap {
    type V = Seq<(Seq<char>, Seq<Seq<char>>)>;

    closed spec fn view(&self) -> Seq<(Seq<char>, Seq<Seq<char>>)> {
        self.entries@.map_values(|e: (Identifier, Vec<Identifier>)| entry_view(e))
    }
}

impl SelectionMap {
    #[verifier::type_invariant]
    closed spec fn inv(self) -> bool {
        strictly_sorted(keys_of(self@))
    }

    /// Creates an empty map.
    pub fn new() -> (r: Self)
        ensures
            r@ == Seq::<(Seq<char>, Seq<Seq<char>>)>::empty(),
    {
        let r = SelectionMap { entries: Vec::new() };
        assert(r@ =~= Seq::<(Seq<char>, Seq<Seq<char>>)>::empty());
        assert(keys_of(r@) =~= Seq::<Seq<char>>::empty());
        r
    }

    /// Sets the selection of a class; returns the selection it replaced.
    pub fn insert(&mut self, class: Identifier, selected: Vec<Identifier>) -> (r: Option<
        Vec<Identifier>,
    >)
        ensures
            match r {
                Some(previous) => exists|i: int|
                    0 <= i < old(self)@.len() && old(self)@[i].0 == class@ && old(self)@[i].1
                        == ids_view(previous@) && final(self)@ == old(self)@.update(
                        i,
                        (class@, ids_view(selected@)),
                    ),
                None => !keys_of(old(self)@).contains(class@) && exists|k: int|
                    0 <= k <= old(self)@.len() && final(self)@ == old(self)@.insert(
                        k,
                        (class@, ids_view(selected@)),
                    ),
            },
            strictly_sorted(keys_of(final(self)@)),
    {
        proof {
            use_type_invariant(&*self);
        }
        let ghost old_view = self@;
        let ghost keys = keys_of(old_view);
        let n = self.entries.len();
        let mut k: usize = 0;
        while k < n && str_lt(self.entries[k].0.as_str(), class.as_str())
            invariant
                n == self.entries@.len(),
                self@ == old_view,
                keys == keys_of(old_view),
                strictly_sorted(keys),
                0 <= k <= n,
                forall|i: int| 0 <= i < k ==> seq_lt(#[trigger] keys[i], class@),
            decreases n - k,
        {
            assert(keys[k as int] == self.entries@[k as int].0@);
            k = k + 1;
        }
        let ghost cv = class@;
        let ghost sv = ids_view(selected@);
        let mut entries = Vec::new();
        std::mem::swap(&mut entries, &mut self.entries);
        if k < n && entries[k].0 == class {
            let (_, previous) = entries.remove(k);
            entries.insert(k, (class, selected));
            proof {
                assert(keys[k as int] == cv);
                let s = entries@.map_values(|e: (Identifier, Vec<Identifier>)| entry_view(e));
                assert(s =~= old_view.update(k as int, (cv, sv)));
                assert(keys_of(s) =~= keys);
            }
            self.entries = entries;
            return Some(previous);
        }
        proof {
            if k < n {
                assert(keys[k as int] == old_view[k as int].0);
                lemma_seq_lt_total(keys[k as int], cv);
            }
            lemma_sorted_absent(keys, cv, k as int);
            assert forall|m: int| k <= m < keys.len() implies seq_lt(cv, #[trigger] keys[m]) by {
                if m > k {
                    lemma_seq_lt_transitive(cv, keys[k as int], keys[m]);
                }
            }
        }
        entries.insert(k, (class, selected));
        proof {
            let s = entries@.map_values(|e: (Identifier, Vec<Identifier>)| entry_view(e));
            assert(s =~= old_view.insert(k as int, (cv, sv)));
            let ks = keys_of(s);
            assert(ks =~= keys.insert(k as int, cv));
            assert forall|i: int, j: int| 0 <= i < j < ks.len() implies seq_lt(
                #[trigger] ks[i],
                #[trigger] ks[j],
            ) by {
                if j < k {
                } else if i < k && j == k {
                } else if i < k && j > k {
                    assert(seq_lt(cv, keys[j - 1]));
                    lemma_seq_lt_transitive(keys[i], cv, keys[j - 1]);
                } else if i == k {
                    assert(seq_lt(cv, keys[j - 1]));
                } else {
                }
            }
        }
        self.entries = entries;
        None
    }

    /// The selection of a class, if any.
    pub fn get(&self, class: &Identifier) -> (r: Option<&Vec<Identifier>>)
        ensures
            match r {
                Some(v) => lookup(self@, class@) == Some(ids_view(v@)),
                None => lookup(self@, class@) is None,
            },
    {
        let n = self.entries.len();
        let mut i: usize = 0;
        while i < n
            invariant
                n == self@.len(),
                0 <= i <= n,
                forall|j: int| 0 <= j < i ==> (#[trigger] self@[j]).0 != class@,
            decreases n - i,
        {
            if self.entries[i].0 == *class {
                proof {
                    lemma_lookup_first(self@, class@, i as int);
                }
                return Some(&self.entries[i].1);
            }
            i = i + 1;
        }
        proof {
            lemma_lookup_absent(self@, class@);
        }
        None
    }

    /// The number of classes with a selection; they are held in strictly increasing order.
    pub fn len(&self) -> (r: usize)
        ensures
            r == self@.len(),
            strictly_sorted(keys_of(self@)),
    {
        proof {
            use_type_invariant(self);
        }
        self.entries.len()
    }

    /// The class of the entry at a position in class-identifier order.
    pub fn class_at(&self, index: usize) -> (r: &Identifier)
        requires
            index < self@.len(),
        ensures
            r@ == self@[index as int].0,
    {
        &self.entries[index].0
    }

    /// The selection of the entry at a position in class-identifier order.
    pub fn selection_at(&self, index: usize) -> (r: &Vec<Identifier>)
        requires
            index < self@.len(),
        ensures
            ids_view(r@) == self@[index as int].1,
    {
        &self.entries[index].1
    }
}

} // verus!

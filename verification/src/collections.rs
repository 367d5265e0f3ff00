//! Ordered sets and maps over keys with a strict total order.

use crate::order::{Ordered, Placement};
use vstd::prelude::*;

verus! {

/// `map` after a list of bindings, each of which replaces the value bound before.
pub open spec fn rebound<A, B>(map: Map<A, B>, bindings: Seq<(A, B)>) -> Map<A, B>
    decreases bindings.len(),
{
    if bindings.len() == 0 {
        map
    } else {
        rebound(map, bindings.drop_last()).insert(bindings.last().0, bindings.last().1)
    }
}

/// The map that a list of bindings makes: a later binding of a key replaces an earlier one.
pub open spec fn bound_last<A, B>(bindings: Seq<(A, B)>) -> Map<A, B> {
    rebound(Map::empty(), bindings)
}

pub proof fn lemma_rebound_push<A, B>(map: Map<A, B>, bindings: Seq<(A, B)>, binding: (A, B))
    ensures
        rebound(map, bindings.push(binding)) == rebound(map, bindings).insert(binding.0, binding.1),
{
    assert(bindings.push(binding).drop_last() =~= bindings);
}

pub proof fn lemma_rebound_concat<A, B>(map: Map<A, B>, first: Seq<(A, B)>, second: Seq<(A, B)>)
    ensures
        rebound(map, first + second) == rebound(rebound(map, first), second),
    decreases second.len(),
{
    if second.len() == 0 {
        assert(first + second =~= first);
    } else {
        lemma_rebound_concat(map, first, second.drop_last());
        assert((first + second).drop_last() =~= first + second.drop_last());
    }
}

/// Everything that some element of a list gives rise to.
pub open spec fn gathered<A, B>(list: Seq<A>, gives: spec_fn(A, B) -> bool) -> Set<B> {
    Set::new(|b: B| exists|i: int| 0 <= i < list.len() && gives(#[trigger] list[i], b))
}

/// Everything that some element of a set gives rise to.
pub open spec fn union_over<A, B>(set: Set<A>, gives: spec_fn(A, B) -> bool) -> Set<B> {
    Set::new(|b: B| exists|a: A| #[trigger] set.contains(a) && gives(a, b))
}

pub proof fn lemma_gathered_push<A, B>(list: Seq<A>, item: A, gives: spec_fn(A, B) -> bool)
    ensures
        gathered(list.push(item), gives) == gathered(list, gives).union(
            Set::new(|b: B| gives(item, b)),
        ),
{
    let longer = list.push(item);
    assert forall|b: B|
        gathered(longer, gives).contains(b) == (gathered(list, gives).contains(b) || gives(item, b)) by {
        if gathered(list, gives).contains(b) {
            let i = choose|i: int| 0 <= i < list.len() && gives(#[trigger] list[i], b);
            assert(longer[i] == list[i]);
        }
        if gathered(longer, gives).contains(b) {
            let i = choose|i: int| 0 <= i < longer.len() && gives(#[trigger] longer[i], b);
            if i < list.len() {
                assert(list[i] == longer[i]);
            }
        }
        assert(longer[list.len() as int] == item);
    }
    assert(gathered(longer, gives) =~= gathered(list, gives).union(
        Set::new(|b: B| gives(item, b)),
    ));
}

pub proof fn lemma_gathered_empty<A, B>(gives: spec_fn(A, B) -> bool)
    ensures
        gathered(Seq::<A>::empty(), gives) == Set::<B>::empty(),
{
    assert(gathered(Seq::<A>::empty(), gives) =~= Set::<B>::empty());
}

pub proof fn lemma_gathered_set<A, B>(list: Seq<A>, gives: spec_fn(A, B) -> bool)
    ensures
        gathered(list, gives) == union_over(list.to_set(), gives),
{
    assert forall|b: B|
        gathered(list, gives).contains(b) == union_over(list.to_set(), gives).contains(b) by {
        if gathered(list, gives).contains(b) {
            let i = choose|i: int| 0 <= i < list.len() && gives(#[trigger] list[i], b);
            assert(list.to_set().contains(list[i]));
        }
        if union_over(list.to_set(), gives).contains(b) {
            let a = choose|a: A| #[trigger] list.to_set().contains(a) && gives(a, b);
            let i = choose|i: int| 0 <= i < list.len() && list[i] == a;
            assert(gives(list[i], b));
        }
    }
    assert(gathered(list, gives) =~= union_over(list.to_set(), gives));
}

/// Whether every element precedes all later ones.
pub open spec fn strictly_sorted<K: Ordered>(s: Seq<K::V>) -> bool {
    forall|i: int, j: int| 0 <= i < j < s.len() ==> K::precedes(#[trigger] s[i], #[trigger] s[j])
}

/// The elements of a finite set, listed in increasing order.
pub open spec fn in_order<K: Ordered>(set: Set<K::V>) -> Seq<K::V> {
    choose|s: Seq<K::V>| strictly_sorted::<K>(s) && #[trigger] s.to_set() == set
}

/// Whether `in_order` lists exactly the elements of `set`, in increasing order.
pub open spec fn is_listed<K: Ordered>(set: Set<K::V>) -> bool {
    &&& strictly_sorted::<K>(in_order::<K>(set))
    &&& in_order::<K>(set).to_set() == set
}

/// A set has one strictly increasing listing only.
pub proof fn lemma_sorted_unique<K: Ordered>(s: Seq<K::V>, t: Seq<K::V>)
    requires
        strictly_sorted::<K>(s),
        strictly_sorted::<K>(t),
        s.to_set() == t.to_set(),
    ensures
        s == t,
    decreases s.len(),
{
    if s.len() == 0 {
        if t.len() > 0 {
            assert(t.to_set().contains(t[0]));
            assert(s.to_set().contains(t[0]));
        }
        assert(s =~= t);
    } else {
        assert(s.to_set().contains(s[0]));
        assert(t.to_set().contains(s[0]));
        assert(t.len() > 0);
        let m = s.last();
        let n = t.last();
        assert(s.to_set().contains(m));
        assert(t.to_set().contains(m));
        assert(t.to_set().contains(n));
        assert(s.to_set().contains(n));
        let i = choose|i: int| 0 <= i < t.len() && t[i] == m;
        let j = choose|j: int| 0 <= j < s.len() && s[j] == n;
        if m != n {
            assert(K::precedes(m, n));
            assert(K::precedes(n, m));
            K::precedes_transitive(m, n, m);
            K::precedes_irreflexive(m);
        }
        let s0 = s.drop_last();
        let t0 = t.drop_last();
        K::precedes_irreflexive(m);
        assert forall|x: K::V| s0.to_set().contains(x) == t0.to_set().contains(x) by {
            if s0.to_set().contains(x) {
                let a = choose|a: int| 0 <= a < s0.len() && s0[a] == x;
                assert(s[a] == x);
                assert(K::precedes(x, m));
                assert(s.to_set().contains(x));
                assert(t.to_set().contains(x));
                let b = choose|b: int| 0 <= b < t.len() && t[b] == x;
                assert(t0[b] == x);
            }
            if t0.to_set().contains(x) {
                let a = choose|a: int| 0 <= a < t0.len() && t0[a] == x;
                assert(t[a] == x);
                assert(K::precedes(x, m));
                assert(t.to_set().contains(x));
                assert(s.to_set().contains(x));
                let b = choose|b: int| 0 <= b < s.len() && s[b] == x;
                assert(s0[b] == x);
            }
        }
        assert(s0.to_set() =~= t0.to_set());
        lemma_sorted_unique::<K>(s0, t0);
        assert(s =~= s0.push(m));
        assert(t =~= t0.push(n));
    }
}

/// A strictly increasing sequence is the ordered listing of its own elements.
pub proof fn lemma_in_order_of_sorted<K: Ordered>(s: Seq<K::V>)
    requires
        strictly_sorted::<K>(s),
    ensures
        in_order::<K>(s.to_set()) == s,
{
    let t = in_order::<K>(s.to_set());
    assert(strictly_sorted::<K>(t) && t.to_set() == s.to_set());
    lemma_sorted_unique::<K>(s, t);
}

/// Every key has a place in a strictly increasing list that lacks it.
proof fn lemma_place_exists<K: Ordered>(list: Seq<K::V>, key: K::V) -> (i: int)
    requires
        strictly_sorted::<K>(list),
        !list.contains(key),
    ensures
        0 <= i <= list.len(),
        forall|j: int| 0 <= j < i ==> K::precedes(#[trigger] list[j], key),
        forall|j: int| i <= j < list.len() ==> K::precedes(key, #[trigger] list[j]),
    decreases list.len(),
{
    if list.len() == 0 {
        0
    } else {
        let rest = list.drop_last();
        let last = list.last();
        assert(list.contains(last));
        assert forall|j: int| 0 <= j < rest.len() implies #[trigger] rest[j] == list[j] by {}
        assert(!rest.contains(key));
        K::precedes_total(last, key);
        if K::precedes(last, key) {
            assert forall|j: int| 0 <= j < list.len() implies K::precedes(
                #[trigger] list[j],
                key,
            ) by {
                if j < list.len() - 1 {
                    K::precedes_transitive(list[j], last, key);
                }
            }
            list.len() as int
        } else {
            let i = lemma_place_exists::<K>(rest, key);
            assert forall|j: int| 0 <= j < i implies K::precedes(#[trigger] list[j], key) by {
                assert(rest[j] == list[j]);
            }
            assert forall|j: int| i <= j < list.len() implies K::precedes(
                key,
                #[trigger] list[j],
            ) by {
                if j < list.len() - 1 {
                    assert(rest[j] == list[j]);
                }
            }
            i
        }
    }
}

/// Every finite set has an ordered listing: `in_order` lists its elements, each once.
pub proof fn lemma_in_order<K: Ordered>(set: Set<K::V>)
    requires
        set.finite(),
    ensures
        is_listed::<K>(set),
    decreases set.len(),
{
    if set.len() == 0 {
        let s = Seq::<K::V>::empty();
        assert(s.to_set() =~= set);
        assert(strictly_sorted::<K>(s));
    } else {
        let key = set.choose();
        let rest = set.remove(key);
        lemma_in_order::<K>(rest);
        let list = in_order::<K>(rest);
        assert(!list.contains(key)) by {
            if list.contains(key) {
                assert(list.to_set().contains(key));
            }
        }
        let i = lemma_place_exists::<K>(list, key);
        lemma_insert_sorted::<K>(list, i, key);
        let s = list.insert(i, key);
        assert(s.to_set() =~= set);
    }
}

/// The views of a list of keys.
pub open spec fn views<K: Ordered>(items: Seq<K>) -> Seq<K::V> {
    items.map_values(|k: K| k@)
}

/// Binary search in a strictly increasing list: the number of keys that precede `key`, and
/// whether `key` itself comes next.
fn locate<K: Ordered>(items: &Vec<K>, key: &K) -> (place: (usize, bool))
    requires
        strictly_sorted::<K>(views(items@)),
    ensures
        place.0 <= items@.len(),
        forall|j: int| 0 <= j < place.0 ==> K::precedes(#[trigger] views(items@)[j], key@),
        place.1 ==> place.0 < items@.len() && views(items@)[place.0 as int] == key@,
        !place.1 ==> forall|j: int|
            place.0 <= j < items@.len() ==> K::precedes(key@, #[trigger] views(items@)[j]),
        place.1 == views(items@).contains(key@),
{
    let ghost list = views(items@);
    let mut lo: usize = 0;
    let mut hi: usize = items.len();
    while lo < hi
        invariant
            lo <= hi <= items@.len(),
            list == views(items@),
            strictly_sorted::<K>(list),
            forall|j: int| 0 <= j < lo ==> K::precedes(#[trigger] list[j], key@),
            forall|j: int| hi <= j < items@.len() ==> K::precedes(key@, #[trigger] list[j]),
        decreases hi - lo,
    {
        let mid: usize = lo + (hi - lo) / 2;
        let ghost pivot = list[mid as int];
        match items[mid].place(key) {
            Placement::Before => {
                proof {
                    assert forall|j: int| 0 <= j < mid + 1 implies K::precedes(
                        #[trigger] list[j],
                        key@,
                    ) by {
                        if j < mid {
                            K::precedes_transitive(list[j], pivot, key@);
                        }
                    }
                }
                lo = mid + 1;
            },
            Placement::Same => {
                return (mid, true);
            },
            Placement::After => {
                proof {
                    assert forall|j: int| mid <= j < items@.len() implies K::precedes(
                        key@,
                        #[trigger] list[j],
                    ) by {
                        if j > mid {
                            K::precedes_transitive(key@, pivot, list[j]);
                        }
                    }
                }
                hi = mid;
            },
        }
    }
    proof {
        K::precedes_irreflexive(key@);
    }
    (lo, false)
}

/// Inserting a key at its place keeps a list strictly increasing.
proof fn lemma_insert_sorted<K: Ordered>(list: Seq<K::V>, i: int, key: K::V)
    requires
        0 <= i <= list.len(),
        strictly_sorted::<K>(list),
        forall|j: int| 0 <= j < i ==> K::precedes(#[trigger] list[j], key),
        forall|j: int| i <= j < list.len() ==> K::precedes(key, #[trigger] list[j]),
    ensures
        strictly_sorted::<K>(list.insert(i, key)),
        list.insert(i, key).to_set() == list.to_set().insert(key),
{
    let after = list.insert(i, key);
    assert forall|a: int, b: int| 0 <= a < b < after.len() implies K::precedes(
        #[trigger] after[a],
        #[trigger] after[b],
    ) by {
        if a != i {
            assert(after[a] == list[if a < i { a } else { a - 1 }]);
        }
        if b != i {
            assert(after[b] == list[if b < i { b } else { b - 1 }]);
        }
    }
    assert forall|x: K::V| after.to_set().contains(x) == list.to_set().insert(key).contains(x) by {
        if after.to_set().contains(x) {
            let a = choose|a: int| 0 <= a < after.len() && after[a] == x;
            if a != i {
                assert(list[if a < i { a } else { a - 1 }] == x);
            }
        }
        if list.to_set().contains(x) {
            let a = choose|a: int| 0 <= a < list.len() && list[a] == x;
            assert(after[if a < i { a } else { a + 1 }] == x);
        }
        assert(after[i] == key);
    }
    assert(after.to_set() =~= list.to_set().insert(key));
}

/// A set of keys, kept in increasing order without repetition.
pub struct SortedSet<K: Ordered> {
    items: Vec<K>,
}

impl<K: Ordered> View for SortedSet<K> {
    type V = Set<K::V>;

    closed spec fn view(&self) -> Set<K::V> {
        views(self.items@).to_set()
    }
}

impl<K: Ordered> SortedSet<K> {
    #[verifier::type_invariant]
    spec fn ordered(self) -> bool {
        strictly_sorted::<K>(views(self.items@))
    }

    pub fn new() -> (set: Self)
        ensures
            set@ == Set::<K::V>::empty(),
            is_listed::<K>(set@),
    {
        let set = SortedSet { items: Vec::new() };
        assert(set@ =~= Set::<K::V>::empty());
        proof {
            lemma_in_order_of_sorted::<K>(views(set.items@));
        }
        set
    }

    pub fn len(&self) -> (n: usize)
        ensures
            n == in_order::<K>(self@).len(),
            is_listed::<K>(self@),
    {
        proof {
            use_type_invariant(self);
            lemma_in_order_of_sorted::<K>(views(self.items@));
        }
        self.items.len()
    }

    /// The element at position `i` in increasing order.
    pub fn at(&self, i: usize) -> (key: &K)
        requires
            i < in_order::<K>(self@).len(),
        ensures
            key@ == in_order::<K>(self@)[i as int],
    {
        proof {
            use_type_invariant(self);
            lemma_in_order_of_sorted::<K>(views(self.items@));
        }
        &self.items[i]
    }

    pub fn contains(&self, key: &K) -> (found: bool)
        ensures
            found == self@.contains(key@),
    {
        proof {
            use_type_invariant(self);
        }
        locate(&self.items, key).1
    }

    /// Adds `key`; answers whether it was missing.
    pub fn insert(&mut self, key: K) -> (added: bool)
        ensures
            final(self)@ == old(self)@.insert(key@),
            added == !old(self)@.contains(key@),
            is_listed::<K>(final(self)@),
    {
        proof {
            use_type_invariant(&*self);
            lemma_in_order_of_sorted::<K>(views(self.items@));
        }
        let (i, found) = locate(&self.items, &key);
        if found {
            assert(self@.insert(key@) =~= self@);
            return false;
        }
        let mut items: Vec<K> = Vec::new();
        std::mem::swap(&mut items, &mut self.items);
        let ghost before = views(items@);
        let ghost added = key@;
        items.insert(i, key);
        proof {
            assert(views(items@) =~= before.insert(i as int, added));
            lemma_insert_sorted::<K>(before, i as int, added);
            lemma_in_order_of_sorted::<K>(views(items@));
        }
        self.items = items;
        true
    }
}

pub proof fn lemma_push_contains<A>(list: Seq<A>, item: A)
    ensures
        forall|x: A| #[trigger] list.push(item).contains(x) <==> list.contains(x) || x == item,
{
    assert forall|x: A| #[trigger] list.push(item).contains(x) <==> list.contains(x) || x == item by {
        if list.contains(x) {
            let j = choose|j: int| 0 <= j < list.len() && list[j] == x;
            assert(list.push(item)[j] == x);
        }
        if x == item {
            assert(list.push(item)[list.len() as int] == x);
        }
    }
}

pub proof fn lemma_to_set_push<A>(list: Seq<A>, item: A)
    ensures
        list.push(item).to_set() == list.to_set().insert(item),
{
    let longer = list.push(item);
    assert forall|x: A| longer.to_set().contains(x) == list.to_set().insert(item).contains(x) by {
        if list.to_set().contains(x) {
            let i = choose|i: int| 0 <= i < list.len() && list[i] == x;
            assert(longer[i] == x);
        }
        assert(longer[list.len() as int] == item);
    }
    assert(longer.to_set() =~= list.to_set().insert(item));
}

impl<K: Ordered> SortedSet<K> {
    /// The set of the keys in a list.
    pub fn from_list(list: &Vec<K>) -> (set: Self)
        ensures
            set@ == views(list@).to_set(),
    {
        let mut set: Self = Self::new();
        let ghost all = views(list@);
        let mut i: usize = 0;
        assert(set@ =~= all.take(0).to_set());
        while i < list.len()
            invariant
                i <= list@.len(),
                all == views(list@),
                set@ == all.take(i as int).to_set(),
            decreases list@.len() - i,
        {
            set.insert(list[i].duplicate());
            proof {
                assert(all.take(i + 1) =~= all.take(i as int).push(all[i as int]));
                lemma_to_set_push(all.take(i as int), all[i as int]);
            }
            i += 1;
        }
        assert(all.take(i as int) =~= all);
        set
    }

    /// The keys in increasing order.
    pub fn to_list(&self) -> (list: Vec<K>)
        ensures
            views(list@) == in_order::<K>(self@),
            is_listed::<K>(self@),
    {
        let n = self.len();
        let mut list: Vec<K> = Vec::new();
        let ghost all = in_order::<K>(self@);
        let mut i: usize = 0;
        assert(views(list@) =~= all.take(0));
        while i < n
            invariant
                i <= n,
                n == all.len(),
                all == in_order::<K>(self@),
                views(list@) == all.take(i as int),
            decreases n - i,
        {
            let ghost before = views(list@);
            list.push(self.at(i).duplicate());
            assert(views(list@) =~= before.push(all[i as int]));
            assert(all.take(i + 1) =~= all.take(i as int).push(all[i as int]));
            i += 1;
        }
        assert(all.take(i as int) =~= all);
        list
    }
}

/// A map whose keys are kept in increasing order.
pub struct SortedMap<K: Ordered, T: View> {
    keys: Vec<K>,
    values: Vec<T>,
}

/// The map that pairs each key of a list with the value at the same position.
pub open spec fn pairing<K: Ordered, T: View>(keys: Seq<K>, values: Seq<T>) -> Map<K::V, T::V> {
    Map::new(
        |k: K::V| views(keys).contains(k),
        |k: K::V| values[views(keys).index_of(k)]@,
    )
}

impl<K: Ordered, T: View> View for SortedMap<K, T> {
    type V = Map<K::V, T::V>;

    closed spec fn view(&self) -> Map<K::V, T::V> {
        pairing(self.keys@, self.values@)
    }
}

proof fn lemma_sorted_index<K: Ordered>(list: Seq<K::V>, i: int)
    requires
        strictly_sorted::<K>(list),
        0 <= i < list.len(),
    ensures
        list.index_of(list[i]) == i,
{
    let j = list.index_of(list[i]);
    assert(list.contains(list[i]));
    K::precedes_irreflexive(list[i]);
    if j < i {
        assert(K::precedes(list[j], list[i]));
    } else if i < j {
        assert(K::precedes(list[i], list[j]));
    }
}

impl<K: Ordered, T: View> SortedMap<K, T> {
    #[verifier::type_invariant]
    spec fn ordered(self) -> bool {
        &&& strictly_sorted::<K>(views(self.keys@))
        &&& self.keys@.len() == self.values@.len()
    }

    pub fn new() -> (map: Self)
        ensures
            map@ == Map::<K::V, T::V>::empty(),
    {
        let map = SortedMap { keys: Vec::new(), values: Vec::new() };
        assert(map@ =~= Map::<K::V, T::V>::empty());
        map
    }

    pub fn len(&self) -> (n: usize)
        ensures
            n == in_order::<K>(self@.dom()).len(),
            is_listed::<K>(self@.dom()),
    {
        proof {
            use_type_invariant(self);
            assert(self@.dom() =~= views(self.keys@).to_set());
            lemma_in_order_of_sorted::<K>(views(self.keys@));
        }
        self.keys.len()
    }

    /// The key at position `i` in increasing order.
    pub fn key_at(&self, i: usize) -> (key: &K)
        requires
            i < in_order::<K>(self@.dom()).len(),
        ensures
            key@ == in_order::<K>(self@.dom())[i as int],
            self@.contains_key(key@),
    {
        proof {
            use_type_invariant(self);
            assert(self@.dom() =~= views(self.keys@).to_set());
            lemma_in_order_of_sorted::<K>(views(self.keys@));
            assert(views(self.keys@).contains(views(self.keys@)[i as int]));
        }
        &self.keys[i]
    }

    /// The value of the key at position `i` in increasing order.
    pub fn value_at(&self, i: usize) -> (value: &T)
        requires
            i < in_order::<K>(self@.dom()).len(),
        ensures
            value@ == self@[in_order::<K>(self@.dom())[i as int]],
    {
        proof {
            use_type_invariant(self);
            assert(self@.dom() =~= views(self.keys@).to_set());
            lemma_in_order_of_sorted::<K>(views(self.keys@));
            assert(views(self.keys@).contains(views(self.keys@)[i as int]));
            lemma_sorted_index::<K>(views(self.keys@), i as int);
        }
        &self.values[i]
    }

    pub fn contains_key(&self, key: &K) -> (found: bool)
        ensures
            found == self@.contains_key(key@),
    {
        proof {
            use_type_invariant(self);
        }
        locate(&self.keys, key).1
    }

    pub fn get(&self, key: &K) -> (value: Option<&T>)
        ensures
            match value {
                Some(v) => self@.contains_key(key@) && self@[key@] == v@,
                None => !self@.contains_key(key@),
            },
    {
        proof {
            use_type_invariant(self);
        }
        let (i, found) = locate(&self.keys, key);
        if found {
            proof {
                lemma_sorted_index::<K>(views(self.keys@), i as int);
            }
            Some(&self.values[i])
        } else {
            None
        }
    }

    /// Binds `key` to `value`; the value bound before, if any, is dropped.
    pub fn insert(&mut self, key: K, value: T)
        ensures
            final(self)@ == old(self)@.insert(key@, value@),
    {
        let mut map: Self = Self::new();
        std::mem::swap(&mut map, self);
        proof {
            use_type_invariant(&map);
        }
        let (i, found) = locate(&map.keys, &key);
        let SortedMap { mut keys, mut values } = map;
        let ghost before = views(keys@);
        let ghost old_values = values@;
        let ghost added = key@;
        if found {
            values.set(i, value);
            proof {
                assert forall|k: K::V| before.contains(k) && k != added implies before.index_of(k)
                    != i by {}
                lemma_sorted_index::<K>(before, i as int);
                assert(pairing(keys@, values@) =~= pairing(keys@, old_values).insert(
                    added,
                    value@,
                ));
            }
        } else {
            keys.insert(i, key);
            values.insert(i, value);
            proof {
                let after = views(keys@);
                assert(after =~= before.insert(i as int, added));
                lemma_insert_sorted::<K>(before, i as int, added);
                assert(after.to_set().contains(added));
                assert forall|k: K::V| after.contains(k) == (before.contains(k) || k == added) by {
                    assert(after.to_set().contains(k) == before.to_set().insert(added).contains(k));
                }
                lemma_sorted_index::<K>(after, i as int);
                assert forall|k: K::V| #[trigger] before.contains(k) implies values@[after.index_of(
                    k,
                )]@ == old_values[before.index_of(k)]@ by {
                    let j = before.index_of(k);
                    let j2 = if j < i { j } else { j + 1 };
                    assert(after[j2] == k);
                    lemma_sorted_index::<K>(after, j2);
                }
                assert(pairing(keys@, values@).dom() =~= after.to_set());
                assert(pairing(keys@, values@) =~= Map::new(
                    |k: K::V| before.contains(k),
                    |k: K::V| old_values[before.index_of(k)]@,
                ).insert(added, value@));
            }
        }
        *self = SortedMap { keys, values };
    }

    /// Takes out the value bound to `key`.
    pub fn remove(&mut self, key: &K) -> (value: Option<T>)
        ensures
            final(self)@ == old(self)@.remove(key@),
            match value {
                Some(v) => old(self)@.contains_key(key@) && old(self)@[key@] == v@,
                None => !old(self)@.contains_key(key@),
            },
    {
        let mut map: Self = Self::new();
        std::mem::swap(&mut map, self);
        proof {
            use_type_invariant(&map);
        }
        let (i, found) = locate(&map.keys, key);
        if !found {
            assert(map@.remove(key@) =~= map@);
            *self = map;
            return None;
        }
        let SortedMap { mut keys, mut values } = map;
        let ghost before = views(keys@);
        let ghost old_values = values@;
        proof {
            lemma_sorted_index::<K>(before, i as int);
        }
        keys.remove(i);
        let value = values.remove(i);
        proof {
            let after = views(keys@);
            assert(after =~= before.remove(i as int));
            assert forall|a: int, b: int| 0 <= a < b < after.len() implies K::precedes(
                #[trigger] after[a],
                #[trigger] after[b],
            ) by {
                assert(after[a] == before[if a < i { a } else { a + 1 }]);
                assert(after[b] == before[if b < i { b } else { b + 1 }]);
            }
            assert forall|k: K::V| #[trigger] after.contains(k) == (before.contains(k) && k
                != key@) by {
                if after.contains(k) {
                    let a = after.index_of(k);
                    let b = if a < i { a } else { a + 1 };
                    assert(before[b] == k);
                    lemma_sorted_index::<K>(before, b);
                }
                if before.contains(k) && k != key@ {
                    let b = before.index_of(k);
                    assert(after[if b < i { b } else { b - 1 }] == k);
                }
            }
            assert forall|k: K::V| #[trigger] after.contains(k) implies values@[after.index_of(k)]@
                == old_values[before.index_of(k)]@ by {
                let b = before.index_of(k);
                let a = if b < i { b } else { b - 1 };
                assert(after[a] == k);
                lemma_sorted_index::<K>(after, a);
            }
            assert(pairing(keys@, values@) =~= Map::new(
                |k: K::V| before.contains(k),
                |k: K::V| old_values[before.index_of(k)]@,
            ).remove(key@));
        }
        *self = SortedMap { keys, values };
        Some(value)
    }
}

} // verus!

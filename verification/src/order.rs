//! Strict total orders on the mathematical views of keys.

use vstd::prelude::*;

verus! {

/// Where one key stands relative to another.
#[derive(Clone, Copy, Debug, PartialEq, Eq, Structural)]
pub enum Placement {
    Before,
    Same,
    After,
}

/// A key whose views are strictly and totally ordered by `precedes`.
pub trait Ordered: View + Sized {
    spec fn precedes(a: Self::V, b: Self::V) -> bool;

    proof fn precedes_irreflexive(a: Self::V)
        ensures
            !Self::precedes(a, a),
    ;

    proof fn precedes_transitive(a: Self::V, b: Self::V, c: Self::V)
        requires
            Self::precedes(a, b),
            Self::precedes(b, c),
        ensures
            Self::precedes(a, c),
    ;

    proof fn precedes_total(a: Self::V, b: Self::V)
        ensures
            a == b || Self::precedes(a, b) || Self::precedes(b, a),
    ;

    /// Decides where `self` stands relative to `other`.
    fn place(&self, other: &Self) -> (placement: Placement)
        ensures
            match placement {
                Placement::Before => Self::precedes(self@, other@),
                Placement::Same => self@ == other@,
                Placement::After => Self::precedes(other@, self@),
            },
    ;

    fn duplicate(&self) -> (copy: Self)
        ensures
            copy@ == self@,
    ;
}

/// The lexicographic order on character sequences.
pub open spec fn text_precedes(a: Seq<char>, b: Seq<char>) -> bool
    decreases a.len(),
{
    if b.len() == 0 {
        false
    } else if a.len() == 0 {
        true
    } else if a[0] != b[0] {
        a[0] < b[0]
    } else {
        text_precedes(a.drop_first(), b.drop_first())
    }
}

pub proof fn lemma_text_precedes_irreflexive(a: Seq<char>)
    ensures
        !text_precedes(a, a),
    decreases a.len(),
{
    if a.len() > 0 {
        lemma_text_precedes_irreflexive(a.drop_first());
    }
}

pub proof fn lemma_text_precedes_transitive(a: Seq<char>, b: Seq<char>, c: Seq<char>)
    requires
        text_precedes(a, b),
        text_precedes(b, c),
    ensures
        text_precedes(a, c),
    decreases a.len(),
{
    if a.len() > 0 && a[0] == b[0] && b[0] == c[0] {
        lemma_text_precedes_transitive(a.drop_first(), b.drop_first(), c.drop_first());
    }
}

pub proof fn lemma_text_precedes_total(a: Seq<char>, b: Seq<char>)
    ensures
        a == b || text_precedes(a, b) || text_precedes(b, a),
    decreases a.len(),
{
    if a.len() > 0 && b.len() > 0 {
        if a[0] == b[0] {
            lemma_text_precedes_total(a.drop_first(), b.drop_first());
            if a.drop_first() == b.drop_first() {
                assert(a =~= seq![a[0]] + a.drop_first());
                assert(b =~= seq![b[0]] + b.drop_first());
            }
        }
    } else if a.len() == 0 && b.len() == 0 {
        assert(a =~= b);
    }
}

/// Compares two texts character by character.
pub fn place_text(a: &str, b: &str) -> (placement: Placement)
    ensures
        match placement {
            Placement::Before => text_precedes(a@, b@),
            Placement::Same => a@ == b@,
            Placement::After => text_precedes(b@, a@),
        },
{
    let mut left = a.chars();
    let mut right = b.chars();
    let ghost mut n: nat = 0;
    loop
        invariant
            n <= a@.len(),
            n <= b@.len(),
            vstd::std_specs::iter::IteratorSpec::remaining(&left) == a@.skip(n as int),
            vstd::std_specs::iter::IteratorSpec::remaining(&right) == b@.skip(n as int),
            a@.take(n as int) == b@.take(n as int),
            text_precedes(a@, b@) == text_precedes(
                a@.skip(n as int),
                b@.skip(n as int),
            ),
            text_precedes(b@, a@) == text_precedes(
                b@.skip(n as int),
                a@.skip(n as int),
            ),
        decreases a@.len() - n,
    {
        let x = left.next();
        let y = right.next();
        match (x, y) {
            (None, None) => {
                assert(a@ =~= a@.take(n as int));
                assert(b@ =~= b@.take(n as int));
                return Placement::Same;
            },
            (None, Some(_)) => {
                return Placement::Before;
            },
            (Some(_), None) => {
                return Placement::After;
            },
            (Some(c), Some(d)) => {
                if c != d {
                    if c < d {
                        return Placement::Before;
                    }
                    return Placement::After;
                }
                proof {
                    assert(a@.skip(n as int).drop_first() =~= a@.skip(n as int + 1));
                    assert(b@.skip(n as int).drop_first() =~= b@.skip(n as int + 1));
                    assert(a@.take(n as int + 1) =~= a@.take(n as int).push(c));
                    assert(b@.take(n as int + 1) =~= b@.take(n as int).push(d));
                    n = n + 1;
                }
            },
        }
    }
}

impl Ordered for String {
    open spec fn precedes(a: Seq<char>, b: Seq<char>) -> bool {
        text_precedes(a, b)
    }

    proof fn precedes_irreflexive(a: Seq<char>) {
        lemma_text_precedes_irreflexive(a);
    }

    proof fn precedes_transitive(a: Seq<char>, b: Seq<char>, c: Seq<char>) {
        lemma_text_precedes_transitive(a, b, c);
    }

    proof fn precedes_total(a: Seq<char>, b: Seq<char>) {
        lemma_text_precedes_total(a, b);
    }

    fn place(&self, other: &Self) -> (placement: Placement) {
        place_text(self.as_str(), other.as_str())
    }

    fn duplicate(&self) -> (copy: Self) {
        self.clone()
    }
}

/// The order on pairs by first component, then by second.
pub open spec fn pair_precedes<A: Ordered, B: Ordered>(x: (A::V, B::V), y: (A::V, B::V)) -> bool {
    A::precedes(x.0, y.0) || (x.0 == y.0 && B::precedes(x.1, y.1))
}

pub proof fn lemma_pair_irreflexive<A: Ordered, B: Ordered>(x: (A::V, B::V))
    ensures
        !pair_precedes::<A, B>(x, x),
{
    A::precedes_irreflexive(x.0);
    B::precedes_irreflexive(x.1);
}

pub proof fn lemma_pair_transitive<A: Ordered, B: Ordered>(
    x: (A::V, B::V),
    y: (A::V, B::V),
    z: (A::V, B::V),
)
    requires
        pair_precedes::<A, B>(x, y),
        pair_precedes::<A, B>(y, z),
    ensures
        pair_precedes::<A, B>(x, z),
{
    A::precedes_irreflexive(y.0);
    if A::precedes(x.0, y.0) && A::precedes(y.0, z.0) {
        A::precedes_transitive(x.0, y.0, z.0);
    }
    if x.0 == y.0 && y.0 == z.0 {
        B::precedes_transitive(x.1, y.1, z.1);
    }
}

pub proof fn lemma_pair_total<A: Ordered, B: Ordered>(x: (A::V, B::V), y: (A::V, B::V))
    ensures
        x == y || pair_precedes::<A, B>(x, y) || pair_precedes::<A, B>(y, x),
{
    A::precedes_total(x.0, y.0);
    B::precedes_total(x.1, y.1);
}

/// Compares by the first keys, then by the second.
pub fn place_pair<A: Ordered, B: Ordered>(a: &A, b: &B, c: &A, d: &B) -> (placement: Placement)
    ensures
        match placement {
            Placement::Before => pair_precedes::<A, B>((a@, b@), (c@, d@)),
            Placement::Same => (a@, b@) == (c@, d@),
            Placement::After => pair_precedes::<A, B>((c@, d@), (a@, b@)),
        },
{
    match a.place(c) {
        Placement::Same => b.place(d),
        other => other,
    }
}

} // verus!

//! Three-way ordering of keyed items, and vectors kept sorted by it.

use vstd::prelude::*;

verus! {

/// The outcome of a three-way comparison.
#[derive(Clone, Copy, Debug, PartialEq, Eq, Structural)]
pub enum Order {
    Less,
    Equal,
    Greater,
}

impl Order {
    /// The outcome of the same comparison with its sides exchanged.
    pub open spec fn flip(self) -> Order {
        match self {
            Order::Less => Order::Greater,
            Order::Equal => Order::Equal,
            Order::Greater => Order::Less,
        }
    }
}

/// An item that is ranked against others of its type by a key it carries.
///
/// The rank is stated over the items' deep views.  It is a total preorder:
/// two items may rank `Equal` without being the same value (their keys
/// agree, the rest may differ).
pub trait Ranked: DeepView + Sized {
    /// How the item viewed as `x` ranks against the one viewed as `y`.
    spec fn rank(x: Self::V, y: Self::V) -> Order;

    /// Every item ranks equal to itself.
    proof fn rank_reflexive(x: Self::V)
        ensures
            Self::rank(x, x) == Order::Equal,
    ;

    /// Exchanging the sides flips the outcome.
    proof fn rank_antisymmetric(x: Self::V, y: Self::V)
        ensures
            Self::rank(y, x) == Self::rank(x, y).flip(),
    ;

    /// Ranks compose: not-greater is transitive, and strictly so as soon as
    /// one link is strict.
    proof fn rank_transitive(x: Self::V, y: Self::V, z: Self::V)
        requires
            Self::rank(x, y) != Order::Greater,
            Self::rank(y, z) != Order::Greater,
        ensures
            Self::rank(x, z) != Order::Greater,
            (Self::rank(x, y) == Order::Less || Self::rank(y, z) == Order::Less) ==> Self::rank(
                x,
                z,
            ) == Order::Less,
    ;

    /// Computes `rank`.
    fn compare(&self, other: &Self) -> (o: Order)
        ensures
            o == Self::rank(self.deep_view(), other.deep_view()),
    ;
}

/// Strictly ascending by rank: no two items share a key.
pub open spec fn ascending<T: Ranked>(s: Seq<T::V>) -> bool {
    forall|i: int, j: int| 0 <= i < j < s.len() ==> T::rank(#[trigger] s[i], #[trigger] s[j]) == Order::Less
}

/// The number of leading items of `s` that rank below `x`; in an ascending
/// sequence, the place where `x` stands or would be put.
pub open spec fn slot<T: Ranked>(s: Seq<T::V>, x: T::V) -> int
    decreases s.len(),
{
    if s.len() == 0 || T::rank(s[0], x) != Order::Less {
        0
    } else {
        1 + slot::<T>(s.drop_first(), x)
    }
}

/// Whether an item with the key of `x` stands in the ascending sequence `s`.
pub open spec fn holds<T: Ranked>(s: Seq<T::V>, x: T::V) -> bool {
    slot::<T>(s, x) < s.len() && T::rank(s[slot::<T>(s, x)], x) == Order::Equal
}

/// `slot` is within bounds, everything before it ranks below `x`, and the
/// item at it does not.
pub proof fn lemma_slot_bounds<T: Ranked>(s: Seq<T::V>, x: T::V)
    ensures
        0 <= slot::<T>(s, x) <= s.len(),
        forall|i: int| 0 <= i < slot::<T>(s, x) ==> #[trigger] T::rank(s[i], x) == Order::Less,
        slot::<T>(s, x) < s.len() ==> T::rank(s[slot::<T>(s, x)], x) != Order::Less,
    decreases s.len(),
{
    if s.len() == 0 || T::rank(s[0], x) != Order::Less {
    } else {
        let t = s.drop_first();
        lemma_slot_bounds::<T>(t, x);
        assert forall|i: int| 0 <= i < slot::<T>(s, x) implies #[trigger] T::rank(s[i], x) == Order::Less by {
            if i > 0 {
                assert(s[i] == t[i - 1]);
            }
        }
        if slot::<T>(s, x) < s.len() {
            assert(s[slot::<T>(s, x)] == t[slot::<T>(t, x)]);
        }
    }
}

/// A position before which everything ranks below `x` and at which
/// something does not is the slot of `x`.
pub proof fn lemma_slot_unique<T: Ranked>(s: Seq<T::V>, x: T::V, p: int)
    requires
        0 <= p <= s.len(),
        forall|i: int| 0 <= i < p ==> #[trigger] T::rank(s[i], x) == Order::Less,
        p < s.len() ==> T::rank(s[p], x) != Order::Less,
    ensures
        slot::<T>(s, x) == p,
    decreases s.len(),
{
    if s.len() == 0 {
    } else if p == 0 {
    } else {
        let t = s.drop_first();
        assert(T::rank(s[0], x) == Order::Less);
        assert forall|i: int| 0 <= i < p - 1 implies #[trigger] T::rank(t[i], x) == Order::Less by {
            assert(t[i] == s[i + 1]);
        }
        if p - 1 < t.len() {
            assert(t[p - 1] == s[p]);
        }
        lemma_slot_unique::<T>(t, x, p - 1);
    }
}

/// In an ascending sequence everything from the slot of `x` on ranks at or
/// above `x`, and strictly above after the slot.
pub proof fn lemma_slot_rest<T: Ranked>(s: Seq<T::V>, x: T::V)
    requires
        ascending::<T>(s),
    ensures
        forall|j: int| slot::<T>(s, x) <= j < s.len() ==> #[trigger] T::rank(s[j], x) != Order::Less,
        forall|j: int| slot::<T>(s, x) < j < s.len() ==> #[trigger] T::rank(s[j], x) == Order::Greater,
{
    lemma_slot_bounds::<T>(s, x);
    let p = slot::<T>(s, x);
    assert forall|j: int| p < j < s.len() implies #[trigger] T::rank(s[j], x) == Order::Greater by {
        // x <= s[p] < s[j]
        T::rank_antisymmetric(s[p], x);
        assert(T::rank(s[p], s[j]) == Order::Less);
        T::rank_transitive(x, s[p], s[j]);
        T::rank_antisymmetric(x, s[j]);
    }
}

/// Finds the slot of `probe` in an ascending vector, and whether an item
/// with its key stands there.
pub fn locate<T: Ranked>(v: &Vec<T>, probe: &T) -> (r: (usize, bool))
    requires
        ascending::<T>(v.deep_view()),
    ensures
        r.0 == slot::<T>(v.deep_view(), probe.deep_view()),
        r.1 == holds::<T>(v.deep_view(), probe.deep_view()),
        r.0 <= v.len(),
        r.1 ==> r.0 < v.len(),
{
    let ghost s = v.deep_view();
    let ghost x = probe.deep_view();
    let mut i: usize = 0;
    while i < v.len()
        invariant
            0 <= i <= v.len(),
            s == v.deep_view(),
            x == probe.deep_view(),
            forall|k: int| 0 <= k < i ==> #[trigger] T::rank(s[k], x) == Order::Less,
        decreases v.len() - i,
    {
        match v[i].compare(probe) {
            Order::Less => {},
            Order::Equal => {
                proof {
                    lemma_slot_unique::<T>(s, x, i as int);
                }
                return (i, true);
            },
            Order::Greater => {
                proof {
                    lemma_slot_unique::<T>(s, x, i as int);
                }
                return (i, false);
            },
        }
        i += 1;
    }
    proof {
        lemma_slot_unique::<T>(s, x, i as int);
    }
    (i, false)
}

/// The deep view of a vector after an insertion is the deep view before
/// with the item's deep view inserted.
pub proof fn lemma_deep_insert<T: DeepView>(before: Vec<T>, after: Vec<T>, p: int, x: T)
    requires
        0 <= p <= before@.len(),
        after@ == before@.insert(p, x),
    ensures
        after.deep_view() == before.deep_view().insert(p, x.deep_view()),
{
    assert(after.deep_view() =~= before.deep_view().insert(p, x.deep_view()));
}

/// The deep view of a vector after an item is replaced is the deep view
/// before with the item's deep view in that place.
pub proof fn lemma_deep_update<T: DeepView>(before: Vec<T>, after: Vec<T>, p: int, x: T)
    requires
        0 <= p < before@.len(),
        after@ == before@.update(p, x),
    ensures
        after.deep_view() == before.deep_view().update(p, x.deep_view()),
{
    assert(after.deep_view() =~= before.deep_view().update(p, x.deep_view()));
}

/// Putting `x` at its slot keeps an ascending sequence ascending, provided
/// its key is not yet there.
pub proof fn lemma_insert_ascending<T: Ranked>(s: Seq<T::V>, x: T::V)
    requires
        ascending::<T>(s),
        !holds::<T>(s, x),
    ensures
        ascending::<T>(s.insert(slot::<T>(s, x), x)),
{
    lemma_slot_bounds::<T>(s, x);
    lemma_slot_rest::<T>(s, x);
    let p = slot::<T>(s, x);
    let t = s.insert(p, x);
    assert forall|i: int, j: int| 0 <= i < j < t.len() implies T::rank(#[trigger] t[i], #[trigger] t[j]) == Order::Less by {
        if j < p {
            assert(t[i] == s[i] && t[j] == s[j]);
        } else if j == p {
            assert(t[i] == s[i]);
        } else if i == p {
            assert(t[j] == s[j - 1]);
            T::rank_antisymmetric(s[j - 1], x);
        } else if i < p {
            assert(t[i] == s[i] && t[j] == s[j - 1]);
        } else {
            assert(t[i] == s[i - 1] && t[j] == s[j - 1]);
        }
    }
}

/// Replacing the item at the slot of `x` by `x` itself keeps an ascending
/// sequence ascending, provided the key of `x` is there.
pub proof fn lemma_update_ascending<T: Ranked>(s: Seq<T::V>, x: T::V)
    requires
        ascending::<T>(s),
        holds::<T>(s, x),
    ensures
        ascending::<T>(s.update(slot::<T>(s, x), x)),
{
    lemma_slot_bounds::<T>(s, x);
    let p = slot::<T>(s, x);
    let t = s.update(p, x);
    assert forall|i: int, j: int| 0 <= i < j < t.len() implies T::rank(#[trigger] t[i], #[trigger] t[j]) == Order::Less by {
        assert(T::rank(s[i], s[j]) == Order::Less);
        if i == p {
            T::rank_antisymmetric(s[p], x);
            T::rank_transitive(x, s[p], s[j]);
        } else if j == p {
            T::rank_transitive(s[i], s[p], x);
        }
    }
}

/// Where an item stands once another, with a different key and not yet
/// there, is put into an ascending sequence: one further where the other
/// is the lesser, and where it stood else.  Whether its key is there does
/// not change.
pub proof fn lemma_slot_after_insert<T: Ranked>(s: Seq<T::V>, x: T::V, y: T::V)
    requires
        ascending::<T>(s),
        !holds::<T>(s, x),
        T::rank(x, y) != Order::Equal,
    ensures
        T::rank(x, y) == Order::Less ==> slot::<T>(s, x) <= slot::<T>(s, y) && slot::<T>(
            s.insert(slot::<T>(s, x), x),
            y,
        ) == slot::<T>(s, y) + 1,
        T::rank(x, y) == Order::Greater ==> slot::<T>(s, y) <= slot::<T>(s, x) && slot::<T>(
            s.insert(slot::<T>(s, x), x),
            y,
        ) == slot::<T>(s, y),
        holds::<T>(s.insert(slot::<T>(s, x), x), y) == holds::<T>(s, y),
{
    let p = slot::<T>(s, x);
    let q = slot::<T>(s, y);
    lemma_slot_bounds::<T>(s, x);
    lemma_slot_bounds::<T>(s, y);
    lemma_slot_rest::<T>(s, x);
    T::rank_antisymmetric(x, y);
    let s1 = s.insert(p, x);
    if T::rank(x, y) == Order::Less {
        // everything below x is below y, so x goes in no later than y
        if q < p {
            assert(T::rank(s[q], x) == Order::Less);
            T::rank_transitive(s[q], x, y);
            assert(false);
        }
        assert forall|i: int| 0 <= i < q + 1 implies #[trigger] T::rank(s1[i], y)
            == Order::Less by {
            if i < p {
                assert(s1[i] == s[i]);
            } else if i > p {
                assert(s1[i] == s[i - 1]);
            }
        }
        if q + 1 < s1.len() {
            assert(s1[q + 1] == s[q]);
        }
        lemma_slot_unique::<T>(s1, y, q + 1);
    } else {
        // everything below y is below x, so y stands no later than x goes in
        if p < q {
            assert(T::rank(s[p], y) == Order::Less);
            T::rank_transitive(s[p], y, x);
            assert(false);
        }
        assert forall|i: int| 0 <= i < q implies #[trigger] T::rank(s1[i], y) == Order::Less by {
            assert(s1[i] == s[i]);
        }
        if q < p {
            assert(s1[q] == s[q]);
        } else {
            assert(s1[q] == x);
            if p < s.len() {
                // y < x < s[p]
                assert(T::rank(s[p], x) == Order::Greater);
                T::rank_antisymmetric(s[p], x);
                T::rank_transitive(y, x, s[p]);
                T::rank_antisymmetric(y, s[p]);
            }
        }
        lemma_slot_unique::<T>(s1, y, q);
    }
}

/// Putting two items with different keys, neither of which is there, into
/// an ascending sequence gives the same whichever goes first.
pub proof fn lemma_insert_commutes<T: Ranked>(s: Seq<T::V>, x: T::V, y: T::V)
    requires
        ascending::<T>(s),
        !holds::<T>(s, x),
        !holds::<T>(s, y),
        T::rank(x, y) != Order::Equal,
    ensures
        !holds::<T>(s.insert(slot::<T>(s, x), x), y),
        !holds::<T>(s.insert(slot::<T>(s, y), y), x),
        s.insert(slot::<T>(s, x), x).insert(slot::<T>(s.insert(slot::<T>(s, x), x), y), y)
            == s.insert(slot::<T>(s, y), y).insert(
            slot::<T>(s.insert(slot::<T>(s, y), y), x),
            x,
        ),
{
    let p = slot::<T>(s, x);
    let q = slot::<T>(s, y);
    lemma_slot_bounds::<T>(s, x);
    lemma_slot_bounds::<T>(s, y);
    T::rank_antisymmetric(x, y);
    lemma_slot_after_insert::<T>(s, x, y);
    lemma_slot_after_insert::<T>(s, y, x);
    if T::rank(x, y) == Order::Less {
        assert(s.insert(p, x).insert(q + 1, y) =~= s.insert(q, y).insert(p, x));
    } else {
        assert(s.insert(p, x).insert(q, y) =~= s.insert(q, y).insert(p + 1, x));
    }
}

/// Where an item stands does not change when an item of the sequence is
/// replaced by one that ranks against it as the old one did.
pub proof fn lemma_slot_after_update<T: Ranked>(s: Seq<T::V>, p: int, v: T::V, y: T::V)
    requires
        0 <= p < s.len(),
        T::rank(v, y) == T::rank(s[p], y),
    ensures
        slot::<T>(s.update(p, v), y) == slot::<T>(s, y),
        holds::<T>(s.update(p, v), y) == holds::<T>(s, y),
{
    let q = slot::<T>(s, y);
    let t = s.update(p, v);
    lemma_slot_bounds::<T>(s, y);
    assert forall|i: int| 0 <= i < q implies #[trigger] T::rank(t[i], y) == Order::Less by {
        if i != p {
            assert(t[i] == s[i]);
        }
    }
    if q < s.len() && q != p {
        assert(t[q] == s[q]);
    }
    lemma_slot_unique::<T>(t, y, q);
}

/// Two ascending sequences that hold the same items are the same.
pub proof fn lemma_ascending_unique<T: Ranked>(a: Seq<T::V>, b: Seq<T::V>)
    requires
        ascending::<T>(a),
        ascending::<T>(b),
        forall|x: T::V| a.contains(x) <==> b.contains(x),
    ensures
        a == b,
    decreases a.len(),
{
    if a.len() == 0 {
        if b.len() > 0 {
            assert(b.contains(b[0]));
        }
        assert(a =~= b);
    } else {
        assert(a.contains(a.last()));
        let x = a.last();
        let j = choose|j: int| 0 <= j < b.len() && b[j] == x;
        let y = b.last();
        assert(b.contains(y));
        let i = choose|i: int| 0 <= i < a.len() && a[i] == y;
        T::rank_antisymmetric(x, y);
        if j < b.len() - 1 {
            assert(T::rank(b[j], b[b.len() - 1]) == Order::Less);
        }
        if i < a.len() - 1 {
            assert(T::rank(a[i], a[a.len() - 1]) == Order::Less);
        }
        assert(x == y);
        T::rank_reflexive(x);
        let a1 = a.drop_last();
        let b1 = b.drop_last();
        assert forall|z: T::V| a1.contains(z) <==> b1.contains(z) by {
            if a1.contains(z) {
                let k = choose|k: int| 0 <= k < a1.len() && a1[k] == z;
                assert(a[k] == z);
                assert(T::rank(a[k], a[a.len() - 1]) == Order::Less);
                assert(a.contains(z));
                let m = choose|m: int| 0 <= m < b.len() && b[m] == z;
                assert(b1[m] == z);
            }
            if b1.contains(z) {
                let k = choose|k: int| 0 <= k < b1.len() && b1[k] == z;
                assert(b[k] == z);
                assert(T::rank(b[k], b[b.len() - 1]) == Order::Less);
                assert(b.contains(z));
                let m = choose|m: int| 0 <= m < a.len() && a[m] == z;
                assert(a1[m] == z);
            }
        }
        assert forall|i: int, j: int| 0 <= i < j < a1.len() implies T::rank(
            #[trigger] a1[i],
            #[trigger] a1[j],
        ) == Order::Less by {
            assert(T::rank(a[i], a[j]) == Order::Less);
        }
        assert forall|i: int, j: int| 0 <= i < j < b1.len() implies T::rank(
            #[trigger] b1[i],
            #[trigger] b1[j],
        ) == Order::Less by {
            assert(T::rank(b[i], b[j]) == Order::Less);
        }
        lemma_ascending_unique::<T>(a1, b1);
        assert(a =~= a1.push(x));
        assert(b =~= b1.push(y));
    }
}

} // verus!

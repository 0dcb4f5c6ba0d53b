//! Keys that a dictionary can hold: values with a strict total order.

use core::cmp::Ordering;
use vstd::prelude::*;

verus! {

/// Lexicographic order of two strings by code point; a proper prefix comes
/// first.
pub open spec fn text_lt(a: Seq<char>, b: Seq<char>) -> bool
    decreases a.len(),
{
    if a.len() == 0 {
        b.len() > 0
    } else if b.len() == 0 {
        false
    } else if a[0] == b[0] {
        text_lt(a.subrange(1, a.len() as int), b.subrange(1, b.len() as int))
    } else {
        a[0] < b[0]
    }
}

proof fn lemma_text_irreflexive(a: Seq<char>)
    ensures
        !text_lt(a, a),
    decreases a.len(),
{
    if a.len() > 0 {
        lemma_text_irreflexive(a.subrange(1, a.len() as int));
    }
}

proof fn lemma_text_total(a: Seq<char>, b: Seq<char>)
    ensures
        a != b ==> text_lt(a, b) || text_lt(b, a),
    decreases a.len(),
{
    if a.len() == 0 && b.len() == 0 {
        assert(a =~= b);
    } else if a.len() > 0 && b.len() > 0 && a[0] == b[0] {
        let a1 = a.subrange(1, a.len() as int);
        let b1 = b.subrange(1, b.len() as int);
        lemma_text_total(a1, b1);
        if a1 =~= b1 {
            assert(a =~= seq![a[0]] + a1);
            assert(b =~= seq![b[0]] + b1);
        }
    }
}

proof fn lemma_text_transitive(a: Seq<char>, b: Seq<char>, c: Seq<char>)
    ensures
        text_lt(a, b) && text_lt(b, c) ==> text_lt(a, c),
    decreases a.len(),
{
    if a.len() > 0 && b.len() > 0 && c.len() > 0 && a[0] == b[0] && b[0] == c[0] {
        lemma_text_transitive(
            a.subrange(1, a.len() as int),
            b.subrange(1, b.len() as int),
            c.subrange(1, c.len() as int),
        );
    }
}

/// Lexicographic order of two id tuples; a proper prefix comes first.
pub open spec fn ids_lt(a: Seq<usize>, b: Seq<usize>) -> bool
    decreases a.len(),
{
    if a.len() == 0 {
        b.len() > 0
    } else if b.len() == 0 {
        false
    } else if a[0] == b[0] {
        ids_lt(a.subrange(1, a.len() as int), b.subrange(1, b.len() as int))
    } else {
        a[0] < b[0]
    }
}

proof fn lemma_ids_irreflexive(a: Seq<usize>)
    ensures
        !ids_lt(a, a),
    decreases a.len(),
{
    if a.len() > 0 {
        lemma_ids_irreflexive(a.subrange(1, a.len() as int));
    }
}

proof fn lemma_ids_total(a: Seq<usize>, b: Seq<usize>)
    ensures
        a != b ==> ids_lt(a, b) || ids_lt(b, a),
    decreases a.len(),
{
    if a.len() == 0 && b.len() == 0 {
        assert(a =~= b);
    } else if a.len() > 0 && b.len() > 0 && a[0] == b[0] {
        let a1 = a.subrange(1, a.len() as int);
        let b1 = b.subrange(1, b.len() as int);
        lemma_ids_total(a1, b1);
        if a1 =~= b1 {
            assert(a =~= seq![a[0]] + a1);
            assert(b =~= seq![b[0]] + b1);
        }
    }
}

proof fn lemma_ids_transitive(a: Seq<usize>, b: Seq<usize>, c: Seq<usize>)
    ensures
        ids_lt(a, b) && ids_lt(b, c) ==> ids_lt(a, c),
    decreases a.len(),
{
    if a.len() > 0 && b.len() > 0 && c.len() > 0 && a[0] == b[0] && b[0] == c[0] {
        lemma_ids_transitive(
            a.subrange(1, a.len() as int),
            b.subrange(1, b.len() as int),
            c.subrange(1, c.len() as int),
        );
    }
}

/// Relies on `Ord for String`: strings are ordered lexicographically, and for
/// `str` that order is the order of the code points.
#[verifier::external_body]
fn compare_text(a: &String, b: &String) -> (r: Ordering)
    ensures
        (r == Ordering::Less) == text_lt(a@, b@),
        (r == Ordering::Equal) == (a@ == b@),
        (r == Ordering::Greater) == text_lt(b@, a@),
{
    a.cmp(b)
}

/// A key type whose values, seen through their view, are strictly and totally
/// ordered.
pub trait OrderedKey: Sized + View {
    /// The strict order on views.
    spec fn key_lt(a: Self::V, b: Self::V) -> bool;

    proof fn lemma_key_order(a: Self::V, b: Self::V, c: Self::V)
        ensures
            !Self::key_lt(a, a),
            Self::key_lt(a, b) && Self::key_lt(b, c) ==> Self::key_lt(a, c),
            a != b ==> Self::key_lt(a, b) || Self::key_lt(b, a),
    ;

    fn compare(&self, other: &Self) -> (r: Ordering)
        ensures
            (r == Ordering::Less) == Self::key_lt(self@, other@),
            (r == Ordering::Equal) == (self@ == other@),
            (r == Ordering::Greater) == Self::key_lt(other@, self@),
    ;

    fn copy_key(&self) -> (r: Self)
        ensures
            r@ == self@,
    ;
}

impl OrderedKey for String {
    open spec fn key_lt(a: Seq<char>, b: Seq<char>) -> bool {
        text_lt(a, b)
    }

    proof fn lemma_key_order(a: Seq<char>, b: Seq<char>, c: Seq<char>) {
        lemma_text_irreflexive(a);
        lemma_text_total(a, b);
        lemma_text_transitive(a, b, c);
    }

    fn compare(&self, other: &String) -> (r: Ordering) {
        compare_text(self, other)
    }

    fn copy_key(&self) -> (r: String) {
        self.clone()
    }
}

impl OrderedKey for i32 {
    open spec fn key_lt(a: i32, b: i32) -> bool {
        a < b
    }

    proof fn lemma_key_order(a: i32, b: i32, c: i32) {
    }

    fn compare(&self, other: &i32) -> (r: Ordering) {
        if *self < *other {
            Ordering::Less
        } else if *self == *other {
            Ordering::Equal
        } else {
            Ordering::Greater
        }
    }

    fn copy_key(&self) -> (r: i32) {
        *self
    }
}

impl OrderedKey for Vec<usize> {
    open spec fn key_lt(a: Seq<usize>, b: Seq<usize>) -> bool {
        ids_lt(a, b)
    }

    proof fn lemma_key_order(a: Seq<usize>, b: Seq<usize>, c: Seq<usize>) {
        lemma_ids_irreflexive(a);
        lemma_ids_total(a, b);
        lemma_ids_transitive(a, b, c);
    }

    fn compare(&self, other: &Vec<usize>) -> (r: Ordering) {
        let mut i: usize = 0;
        assert(self@.subrange(0, self@.len() as int) =~= self@);
        assert(other@.subrange(0, other@.len() as int) =~= other@);
        assert(self@.take(0) =~= other@.take(0));
        while i < self.len() && i < other.len() && self[i] == other[i]
            invariant
                i <= self@.len(),
                i <= other@.len(),
                self@.take(i as int) == other@.take(i as int),
                ids_lt(self@, other@) == ids_lt(
                    self@.subrange(i as int, self@.len() as int),
                    other@.subrange(i as int, other@.len() as int),
                ),
                ids_lt(other@, self@) == ids_lt(
                    other@.subrange(i as int, other@.len() as int),
                    self@.subrange(i as int, self@.len() as int),
                ),
            decreases self@.len() - i,
        {
            let ghost a = self@.subrange(i as int, self@.len() as int);
            let ghost b = other@.subrange(i as int, other@.len() as int);
            assert(a.subrange(1, a.len() as int) =~= self@.subrange(i + 1, self@.len() as int));
            assert(b.subrange(1, b.len() as int) =~= other@.subrange(i + 1, other@.len() as int));
            assert(self@.take(i + 1) =~= self@.take(i as int).push(self@[i as int]));
            assert(other@.take(i + 1) =~= other@.take(i as int).push(other@[i as int]));
            i += 1;
        }
        let ghost a = self@.subrange(i as int, self@.len() as int);
        let ghost b = other@.subrange(i as int, other@.len() as int);
        proof {
            lemma_ids_irreflexive(self@);
            lemma_ids_total(self@, other@);
            lemma_ids_irreflexive(a);
            assert(self@ =~= self@.take(i as int) + a);
            assert(other@ =~= other@.take(i as int) + b);
        }
        if i < self.len() && i < other.len() {
            if self[i] < other[i] {
                Ordering::Less
            } else {
                Ordering::Greater
            }
        } else if i < self.len() {
            Ordering::Greater
        } else if i < other.len() {
            Ordering::Less
        } else {
            proof {
                assert(a.len() == 0 && b.len() == 0);
                assert(self@ =~= other@);
            }
            Ordering::Equal
        }
    }

    fn copy_key(&self) -> (r: Vec<usize>) {
        let mut r: Vec<usize> = Vec::new();
        let mut i: usize = 0;
        while i < self.len()
            invariant
                i <= self@.len(),
                r@ == self@.take(i as int),
            decreases self@.len() - i,
        {
            r.push(self[i]);
            i += 1;
            assert(r@ =~= self@.take(i as int));
        }
        assert(self@.take(i as int) =~= self@);
        r
    }
}

/// The order facts of `K`, for all keys at once.
pub proof fn lemma_order_facts<K: OrderedKey>()
    ensures
        forall|a: K::V| !K::key_lt(a, a),
        forall|a: K::V, b: K::V, c: K::V|
            #[trigger] K::key_lt(a, b) && #[trigger] K::key_lt(b, c) ==> K::key_lt(a, c),
        forall|a: K::V, b: K::V| a != b ==> #[trigger] K::key_lt(a, b) || #[trigger] K::key_lt(b, a),
{
    assert forall|a: K::V| !K::key_lt(a, a) by {
        K::lemma_key_order(a, a, a);
    }
    assert forall|a: K::V, b: K::V, c: K::V|
        #[trigger] K::key_lt(a, b) && #[trigger] K::key_lt(b, c) implies K::key_lt(a, c) by {
        K::lemma_key_order(a, b, c);
    }
    assert forall|a: K::V, b: K::V| a != b implies #[trigger] K::key_lt(a, b) || #[trigger] K::key_lt(b, a) by {
        K::lemma_key_order(a, b, b);
    }
}

} // verus!

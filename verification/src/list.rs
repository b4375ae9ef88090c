//! A singly linked list of ordered elements with constant-time append,
//! indexed lookup, and a destructive merge of two sorted lists.

use vstd::prelude::*;
use vstd::multiset::Multiset;
use vstd::seq_lib::lemma_multiset_commutative;

verus! {

/// The elements of `s` are non-decreasing from first to last.
pub open spec fn sorted(s: Seq<i32>) -> bool {
    forall|i: int, j: int| 0 <= i <= j < s.len() ==> #[trigger] s[i] <= #[trigger] s[j]
}

/// Every element of `s` is at least `x`.
pub open spec fn all_at_least(x: i32, s: Seq<i32>) -> bool {
    forall|i: int| 0 <= i < s.len() ==> x <= #[trigger] s[i]
}

/// The interleaving of `a` and `b` that repeatedly takes the smaller head,
/// taking `a`'s head when the two are equal.
pub open spec fn merge_seq(a: Seq<i32>, b: Seq<i32>) -> Seq<i32>
    decreases a.len() + b.len(),
{
    if a.len() == 0 {
        b
    } else if b.len() == 0 {
        a
    } else if a[0] <= b[0] {
        seq![a[0]] + merge_seq(a.skip(1), b)
    } else {
        seq![b[0]] + merge_seq(a, b.skip(1))
    }
}

/// Dropping the head of a sorted sequence leaves it sorted.
proof fn lemma_sorted_skip1(s: Seq<i32>)
    requires
        sorted(s),
        s.len() > 0,
    ensures
        sorted(s.skip(1)),
{
    assert forall|i: int, j: int| 0 <= i <= j < s.skip(1).len() implies #[trigger] s.skip(1)[i]
        <= #[trigger] s.skip(1)[j] by {
        assert(s.skip(1)[i] == s[i + 1]);
        assert(s.skip(1)[j] == s[j + 1]);
    }
}

/// A lower bound on both inputs is a lower bound on their interleaving.
proof fn lemma_merge_seq_lower_bound(x: i32, a: Seq<i32>, b: Seq<i32>)
    requires
        all_at_least(x, a),
        all_at_least(x, b),
    ensures
        all_at_least(x, merge_seq(a, b)),
    decreases a.len() + b.len(),
{
    if a.len() == 0 || b.len() == 0 {
    } else if a[0] <= b[0] {
        assert(all_at_least(x, a.skip(1))) by {
            assert(forall|i: int| 0 <= i < a.skip(1).len() ==> #[trigger] a.skip(1)[i] == a[i + 1]);
        }
        lemma_merge_seq_lower_bound(x, a.skip(1), b);
        assert(forall|i: int|
            0 <= i < merge_seq(a, b).len() ==> x <= #[trigger] merge_seq(a, b)[i]);
    } else {
        assert(all_at_least(x, b.skip(1))) by {
            assert(forall|i: int| 0 <= i < b.skip(1).len() ==> #[trigger] b.skip(1)[i] == b[i + 1]);
        }
        lemma_merge_seq_lower_bound(x, a, b.skip(1));
        assert(forall|i: int|
            0 <= i < merge_seq(a, b).len() ==> x <= #[trigger] merge_seq(a, b)[i]);
    }
}

/// Merging two sorted sequences yields a sorted sequence.
pub proof fn lemma_merge_seq_sorted(a: Seq<i32>, b: Seq<i32>)
    requires
        sorted(a),
        sorted(b),
    ensures
        sorted(merge_seq(a, b)),
    decreases a.len() + b.len(),
{
    if a.len() == 0 || b.len() == 0 {
    } else if a[0] <= b[0] {
        lemma_sorted_skip1(a);
        lemma_merge_seq_sorted(a.skip(1), b);
        assert(all_at_least(a[0], a.skip(1))) by {
            assert(forall|i: int| 0 <= i < a.skip(1).len() ==> #[trigger] a.skip(1)[i] == a[i + 1]);
        }
        lemma_merge_seq_lower_bound(a[0], a.skip(1), b);
        let m = merge_seq(a, b);
        let rest = merge_seq(a.skip(1), b);
        assert forall|i: int, j: int| 0 <= i <= j < m.len() implies #[trigger] m[i]
            <= #[trigger] m[j] by {
            if 0 < i {
                assert(m[i] == rest[i - 1]);
                assert(m[j] == rest[j - 1]);
            } else if 0 < j {
                assert(m[j] == rest[j - 1]);
                assert(a[0] <= rest[j - 1]);
            }
        }
    } else {
        lemma_sorted_skip1(b);
        lemma_merge_seq_sorted(a, b.skip(1));
        assert(all_at_least(b[0], b.skip(1))) by {
            assert(forall|i: int| 0 <= i < b.skip(1).len() ==> #[trigger] b.skip(1)[i] == b[i + 1]);
        }
        assert(all_at_least(b[0], a)) by {
            assert(forall|i: int| 0 <= i < a.len() ==> b[0] <= #[trigger] a[i]);
        }
        lemma_merge_seq_lower_bound(b[0], a, b.skip(1));
        let m = merge_seq(a, b);
        let rest = merge_seq(a, b.skip(1));
        assert forall|i: int, j: int| 0 <= i <= j < m.len() implies #[trigger] m[i]
            <= #[trigger] m[j] by {
            if 0 < i {
                assert(m[i] == rest[i - 1]);
                assert(m[j] == rest[j - 1]);
            } else if 0 < j {
                assert(m[j] == rest[j - 1]);
                assert(b[0] <= rest[j - 1]);
            }
        }
    }
}

/// The interleaving carries exactly the elements of the two inputs: its
/// length is the sum of theirs, and its multiset of values is their union.
pub proof fn lemma_merge_seq_elements(a: Seq<i32>, b: Seq<i32>)
    ensures
        merge_seq(a, b).len() == a.len() + b.len(),
        merge_seq(a, b).to_multiset() == a.to_multiset().add(b.to_multiset()),
    decreases a.len() + b.len(),
{
    broadcast use vstd::seq_lib::group_to_multiset_ensures;

    if a.len() == 0 {
        assert(a.to_multiset() =~= Multiset::empty());
        assert(merge_seq(a, b).to_multiset() =~= a.to_multiset().add(b.to_multiset()));
    } else if b.len() == 0 {
        assert(b.to_multiset() =~= Multiset::empty());
        assert(merge_seq(a, b).to_multiset() =~= a.to_multiset().add(b.to_multiset()));
    } else if a[0] <= b[0] {
        lemma_merge_seq_elements(a.skip(1), b);
        assert(a =~= seq![a[0]] + a.skip(1));
        lemma_multiset_commutative(seq![a[0]], a.skip(1));
        lemma_multiset_commutative(seq![a[0]], merge_seq(a.skip(1), b));
        assert(merge_seq(a, b).to_multiset() =~= a.to_multiset().add(b.to_multiset()));
    } else {
        lemma_merge_seq_elements(a, b.skip(1));
        assert(b =~= seq![b[0]] + b.skip(1));
        lemma_multiset_commutative(seq![b[0]], b.skip(1));
        lemma_multiset_commutative(seq![b[0]], merge_seq(a, b.skip(1)));
        assert(merge_seq(a, b).to_multiset() =~= a.to_multiset().add(b.to_multiset()));
    }
}

/// Merging with an empty sequence on either side returns the other input
/// unchanged.
pub proof fn lemma_merge_seq_identity(s: Seq<i32>)
    ensures
        merge_seq(s, Seq::<i32>::empty()) == s,
        merge_seq(Seq::<i32>::empty(), s) == s,
{
}

/// The values of the pairs in `s` are non-decreasing from first to last.
pub open spec fn sorted_pairs(s: Seq<(i32, bool)>) -> bool {
    forall|i: int, j: int| 0 <= i <= j < s.len() ==> (#[trigger] s[i]).0 <= (#[trigger] s[j]).0
}

/// The interleaving of two sequences of value-origin pairs, by the same
/// rule as `merge_seq`: the pair with the smaller value moves first, the
/// left pair on a tie.  The origin mark is carried along and never read.
pub open spec fn merge_tagged(a: Seq<(i32, bool)>, b: Seq<(i32, bool)>) -> Seq<(i32, bool)>
    decreases a.len() + b.len(),
{
    if a.len() == 0 {
        b
    } else if b.len() == 0 {
        a
    } else if a[0].0 <= b[0].0 {
        seq![a[0]] + merge_tagged(a.skip(1), b)
    } else {
        seq![b[0]] + merge_tagged(a, b.skip(1))
    }
}

/// The tagged interleaving is `merge_seq` on the values: the origin marks
/// change nothing about which value goes where.
pub proof fn lemma_merge_tagged_values(a: Seq<(i32, bool)>, b: Seq<(i32, bool)>)
    ensures
        merge_tagged(a, b).map_values(|p: (i32, bool)| p.0) == merge_seq(
            a.map_values(|p: (i32, bool)| p.0),
            b.map_values(|p: (i32, bool)| p.0),
        ),
    decreases a.len() + b.len(),
{
    let f = |p: (i32, bool)| p.0;
    if a.len() == 0 {
        assert(a.map_values(f).len() == 0);
    } else if b.len() == 0 {
        assert(b.map_values(f).len() == 0);
    } else if a[0].0 <= b[0].0 {
        lemma_merge_tagged_values(a.skip(1), b);
        assert(a.skip(1).map_values(f) =~= a.map_values(f).skip(1));
        assert(a.map_values(f)[0] == a[0].0);
        assert(merge_tagged(a, b).map_values(f) =~= seq![a[0].0] + merge_tagged(
            a.skip(1),
            b,
        ).map_values(f));
        assert(merge_tagged(a, b).map_values(f) =~= merge_seq(
            a.map_values(f),
            b.map_values(f),
        ));
    } else {
        lemma_merge_tagged_values(a, b.skip(1));
        assert(b.skip(1).map_values(f) =~= b.map_values(f).skip(1));
        assert(b.map_values(f)[0] == b[0].0);
        assert(merge_tagged(a, b).map_values(f) =~= seq![b[0].0] + merge_tagged(
            a,
            b.skip(1),
        ).map_values(f));
        assert(merge_tagged(a, b).map_values(f) =~= merge_seq(
            a.map_values(f),
            b.map_values(f),
        ));
    }
}

/// Stability of the merge.  Mark every element of `a` with `false` and
/// every element of `b` with `true`; then in the merged sequence an
/// element of `a` never stands after an element of `b` of equal value.
pub proof fn lemma_merge_tagged_stable(a: Seq<(i32, bool)>, b: Seq<(i32, bool)>)
    requires
        sorted_pairs(a),
        sorted_pairs(b),
        forall|i: int| 0 <= i < a.len() ==> !(#[trigger] a[i]).1,
        forall|i: int| 0 <= i < b.len() ==> (#[trigger] b[i]).1,
    ensures
        forall|j: int|
            0 <= j < merge_tagged(a, b).len() && !(#[trigger] merge_tagged(a, b)[j]).1 ==> a.len()
                > 0 && a[0].0 <= merge_tagged(a, b)[j].0,
        forall|i: int, j: int|
            0 <= i <= j < merge_tagged(a, b).len() && (#[trigger] merge_tagged(a, b)[i]).0 == (
            #[trigger] merge_tagged(a, b)[j]).0 && !merge_tagged(a, b)[j].1 ==> !merge_tagged(
                a,
                b,
            )[i].1,
    decreases a.len() + b.len(),
{
    let m = merge_tagged(a, b);
    if a.len() == 0 {
        assert(forall|j: int| 0 <= j < m.len() ==> (#[trigger] m[j]).1);
    } else if b.len() == 0 {
        assert(m == a);
    } else if a[0].0 <= b[0].0 {
        assert(sorted_pairs(a.skip(1))) by {
            assert forall|i: int, j: int| 0 <= i <= j < a.skip(1).len() implies (#[trigger] a.skip(
                1,
            )[i]).0 <= (#[trigger] a.skip(1)[j]).0 by {
                assert(a.skip(1)[i] == a[i + 1]);
                assert(a.skip(1)[j] == a[j + 1]);
            }
        }
        assert(forall|i: int| 0 <= i < a.skip(1).len() ==> !(#[trigger] a.skip(1)[i]).1) by {
            assert(forall|i: int| 0 <= i < a.skip(1).len() ==> #[trigger] a.skip(1)[i] == a[i + 1]);
        }
        lemma_merge_tagged_stable(a.skip(1), b);
        let rest = merge_tagged(a.skip(1), b);
        assert(m == seq![a[0]] + rest);
        assert(forall|j: int| 1 <= j < m.len() ==> #[trigger] m[j] == rest[j - 1]);
        assert(m[0] == a[0]);
        assert forall|j: int| 0 <= j < m.len() && !(#[trigger] m[j]).1 implies a.len() > 0
            && a[0].0 <= m[j].0 by {
            if j > 0 {
                assert(!rest[j - 1].1);
                assert(a.skip(1).len() > 0 && a.skip(1)[0].0 <= rest[j - 1].0);
                assert(a.skip(1)[0] == a[1]);
                assert(a[0].0 <= a[1].0);
            }
        }
        assert forall|i: int, j: int|
            0 <= i <= j < m.len() && (#[trigger] m[i]).0 == (#[trigger] m[j]).0 && !m[j].1 implies
            !m[i].1 by {
            if i > 0 {
                assert(m[i] == rest[i - 1]);
                assert(m[j] == rest[j - 1]);
            }
        }
    } else {
        assert(sorted_pairs(b.skip(1))) by {
            assert forall|i: int, j: int| 0 <= i <= j < b.skip(1).len() implies (#[trigger] b.skip(
                1,
            )[i]).0 <= (#[trigger] b.skip(1)[j]).0 by {
                assert(b.skip(1)[i] == b[i + 1]);
                assert(b.skip(1)[j] == b[j + 1]);
            }
        }
        assert(forall|i: int| 0 <= i < b.skip(1).len() ==> (#[trigger] b.skip(1)[i]).1) by {
            assert(forall|i: int| 0 <= i < b.skip(1).len() ==> #[trigger] b.skip(1)[i] == b[i + 1]);
        }
        lemma_merge_tagged_stable(a, b.skip(1));
        let rest = merge_tagged(a, b.skip(1));
        assert(m == seq![b[0]] + rest);
        assert(forall|j: int| 1 <= j < m.len() ==> #[trigger] m[j] == rest[j - 1]);
        assert(m[0] == b[0]);
        assert forall|j: int| 0 <= j < m.len() && !(#[trigger] m[j]).1 implies a.len() > 0
            && a[0].0 <= m[j].0 by {
            if j > 0 {
                assert(!rest[j - 1].1);
            }
        }
        assert forall|i: int, j: int|
            0 <= i <= j < m.len() && (#[trigger] m[i]).0 == (#[trigger] m[j]).0 && !m[j].1 implies
            !m[i].1 by {
            if i > 0 {
                assert(m[i] == rest[i - 1]);
                assert(m[j] == rest[j - 1]);
            } else {
                // The popped pair came from `b`; an equal value from `a`
                // cannot follow it, since `b`'s head was strictly smaller
                // than everything left in `a`.
                assert(!rest[j - 1].1);
                assert(a[0].0 <= rest[j - 1].0);
                assert(m[j].0 == rest[j - 1].0);
                assert(b[0].0 < a[0].0);
                assert(m[i].0 != m[j].0);
            }
        }
    }
}

/// The character for one decimal digit.
pub open spec fn digit_char(d: int) -> char {
    ((48 + d) as u8) as char
}

/// The decimal digits of `n`, most significant first.
pub open spec fn dec_chars(n: nat) -> Seq<char>
    decreases n,
{
    if n < 10 {
        seq![digit_char(n as int)]
    } else {
        dec_chars(n / 10) + seq![digit_char((n % 10) as int)]
    }
}

/// The decimal rendering of `v`, with a leading minus sign when negative.
pub open spec fn int_chars(v: int) -> Seq<char> {
    if v < 0 {
        seq!['-'] + dec_chars((-v) as nat)
    } else {
        dec_chars(v as nat)
    }
}

/// The rendering of a list of numbers: the elements in order, separated
/// by `", "`.
pub open spec fn rendered_ints(s: Seq<i32>) -> Seq<char>
    decreases s.len(),
{
    if s.len() == 0 {
        Seq::<char>::empty()
    } else if s.len() == 1 {
        int_chars(s[0] as int)
    } else {
        int_chars(s[0] as int) + seq![',', ' '] + rendered_ints(s.skip(1))
    }
}

/// The rendering of a list of strings: the elements in order, separated
/// by `", "`.
pub open spec fn rendered_strs(s: Seq<String>) -> Seq<char>
    decreases s.len(),
{
    if s.len() == 0 {
        Seq::<char>::empty()
    } else if s.len() == 1 {
        s[0]@
    } else {
        s[0]@ + seq![',', ' '] + rendered_strs(s.skip(1))
    }
}

/// Builds a `String` from the characters of `v`, in order.
/// Relies on `String`'s `FromIterator<char>` impl: collecting characters
/// yields the string of exactly those characters.
#[verifier::external_body]
fn chars_to_string(v: Vec<char>) -> (s: String)
    ensures
        s@ == v@,
{
    v.into_iter().collect()
}

/// The characters of a string slice, in order.
/// Relies on `str::chars`: it iterates the characters of the slice.
#[verifier::external_body]
fn str_chars(s: &str) -> (v: Vec<char>)
    ensures
        v@ == s@,
{
    s.chars().collect()
}

/// Appends the decimal digits of `n` to `out`.
fn push_dec_chars(out: &mut Vec<char>, n: u32)
    ensures
        final(out)@ == old(out)@ + dec_chars(n as nat),
    decreases n,
{
    if n < 10 {
        out.push((48u8 + (n as u8)) as char);
        proof {
            assert(out@ =~= old(out)@ + dec_chars(n as nat));
        }
    } else {
        push_dec_chars(out, n / 10);
        out.push((48u8 + ((n % 10) as u8)) as char);
        proof {
            assert(out@ =~= old(out)@ + dec_chars(n as nat));
        }
    }
}

/// Appends the decimal rendering of `v` to `out`.
fn push_int_chars(out: &mut Vec<char>, v: i32)
    ensures
        final(out)@ == old(out)@ + int_chars(v as int),
{
    if v < 0 {
        out.push('-');
        let m: u32 = (-(v as i64)) as u32;
        push_dec_chars(out, m);
        proof {
            assert(m as nat == (-(v as int)) as nat);
            assert(out@ =~= old(out)@ + int_chars(v as int));
        }
    } else {
        push_dec_chars(out, v as u32);
    }
}

/// On a tie between the two heads the interleaving takes the left head
/// first: the rule that makes the merge stable.
pub proof fn lemma_merge_seq_left_bias(a: Seq<i32>, b: Seq<i32>)
    requires
        a.len() > 0,
        b.len() > 0,
        a[0] <= b[0],
    ensures
        merge_seq(a, b) == seq![a[0]] + merge_seq(a.skip(1), b),
        merge_seq(a, b)[0] == a[0],
{
    assert(merge_seq(a, b)[0] == (seq![a[0]] + merge_seq(a.skip(1), b))[0]);
}

/// A singly linked list, holding its elements in order together with the
/// length counter that every operation keeps in step with the chain.
pub struct LinkedList<T> {
    /// Number of elements currently in the list.
    pub length: u32,
    /// The chain of elements, first to last.
    pub elems: Vec<T>,
}

impl<T> View for LinkedList<T> {
    type V = Seq<T>;

    open spec fn view(&self) -> Seq<T> {
        self.elems@
    }
}

impl<T> Default for LinkedList<T> {
    /// The default list is the empty list.
    fn default() -> (l: Self)
        ensures
            l.well_formed(),
            l@ == Seq::<T>::empty(),
            l.length == 0,
    {
        Self::new()
    }
}

impl<T> LinkedList<T> {
    /// The length counter agrees with the chain of elements.
    pub open spec fn well_formed(&self) -> bool {
        self.length as nat == self@.len()
    }

    /// Creates an empty list.
    pub fn new() -> (l: LinkedList<T>)
        ensures
            l.well_formed(),
            l@ == Seq::<T>::empty(),
            l.length == 0,
    {
        LinkedList { length: 0, elems: Vec::new() }
    }

    /// Appends `obj` at the end of the list.
    pub fn add(&mut self, obj: T)
        requires
            old(self).well_formed(),
            old(self).length < u32::MAX,
        ensures
            final(self).well_formed(),
            final(self)@ == old(self)@.push(obj),
            final(self).length == old(self).length + 1,
    {
        self.elems.push(obj);
        self.length = self.length + 1;
    }

    /// Returns the element at position `index`, or `None` when `index` is
    /// out of range (a negative index is out of range as well).
    pub fn get(&mut self, index: i32) -> (r: Option<&T>)
        requires
            old(self).well_formed(),
        ensures
            *final(self) == *old(self),
            (match r {
                Some(v) => 0 <= index && (index as int) < old(self)@.len() && *v == old(
                    self,
                )@[index as int],
                None => !(0 <= index && (index as int) < old(self)@.len()),
            }),
    {
        if index < 0 {
            return None;
        }
        let i = index as usize;
        if i < self.elems.len() {
            Some(&self.elems[i])
        } else {
            None
        }
    }
}

impl LinkedList<i32> {
    /// Compares the heads of two non-empty lists, detaches the smaller one
    /// (the head of `list_a` on a tie) from its source list, and returns it.
    /// The detached element is both head and tail of a one-element result.
    pub fn pick_maller_head(list_a: &mut LinkedList<i32>, list_b: &mut LinkedList<i32>) -> (h: i32)
        requires
            old(list_a).well_formed(),
            old(list_b).well_formed(),
            old(list_a).length > 0,
            old(list_b).length > 0,
        ensures
            final(list_a).well_formed(),
            final(list_b).well_formed(),
            old(list_a)@[0] <= old(list_b)@[0] ==> {
                &&& h == old(list_a)@[0]
                &&& final(list_a)@ == old(list_a)@.skip(1)
                &&& *final(list_b) == *old(list_b)
            },
            !(old(list_a)@[0] <= old(list_b)@[0]) ==> {
                &&& h == old(list_b)@[0]
                &&& final(list_b)@ == old(list_b)@.skip(1)
                &&& *final(list_a) == *old(list_a)
            },
    {
        if list_a.elems[0] <= list_b.elems[0] {
            let h = list_a.elems.remove(0);
            list_a.length = list_a.length - 1;
            proof {
                assert(old(list_a)@.remove(0) =~= old(list_a)@.skip(1));
            }
            h
        } else {
            let h = list_b.elems.remove(0);
            list_b.length = list_b.length - 1;
            proof {
                assert(old(list_b)@.remove(0) =~= old(list_b)@.skip(1));
            }
            h
        }
    }

    /// Detaches the head of a non-empty list, shortening it by one.
    fn remove_head(list: &mut LinkedList<i32>)
        requires
            old(list).well_formed(),
            old(list).length > 0,
        ensures
            final(list).well_formed(),
            final(list)@ == old(list)@.skip(1),
    {
        list.elems.remove(0);
        list.length = list.length - 1;
        proof {
            assert(old(list)@.remove(0) =~= old(list)@.skip(1));
        }
    }

    /// Consumes two sorted lists and returns the sorted list holding exactly
    /// the elements of both: the interleaving that repeatedly moves the
    /// smaller head over, moving `list_a`'s head on ties.  An empty input
    /// gives back the other list as it stands.
    pub fn merge(mut list_a: LinkedList<i32>, mut list_b: LinkedList<i32>) -> (r: LinkedList<i32>)
        requires
            list_a.well_formed(),
            list_b.well_formed(),
            sorted(list_a@),
            sorted(list_b@),
            list_a@.len() + list_b@.len() <= u32::MAX,
        ensures
            r.well_formed(),
            r@ == merge_seq(list_a@, list_b@),
            sorted(r@),
            r@.len() == list_a@.len() + list_b@.len(),
            r@.to_multiset() == list_a@.to_multiset().add(list_b@.to_multiset()),
            list_a@.len() == 0 ==> r == list_b,
            list_a@.len() > 0 && list_b@.len() == 0 ==> r == list_a,
    {
        let ghost a0 = list_a@;
        let ghost b0 = list_b@;
        proof {
            lemma_merge_seq_sorted(a0, b0);
            lemma_merge_seq_elements(a0, b0);
        }
        if list_a.length == 0 {
            return list_b;
        }
        if list_b.length == 0 {
            return list_a;
        }
        let result_length = list_a.length + list_b.length;
        let h = LinkedList::pick_maller_head(&mut list_a, &mut list_b);
        let mut result_elems: Vec<i32> = Vec::new();
        result_elems.push(h);
        proof {
            assert(result_elems@ =~= seq![h]);
            assert(result_elems@ + merge_seq(list_a@, list_b@) =~= merge_seq(a0, b0));
        }
        while list_a.length > 0 && list_b.length > 0
            invariant
                list_a.well_formed(),
                list_b.well_formed(),
                sorted(list_a@),
                sorted(list_b@),
                result_elems@ + merge_seq(list_a@, list_b@) == merge_seq(a0, b0),
            decreases list_a@.len() + list_b@.len(),
        {
            let ghost ai = list_a@;
            let ghost bi = list_b@;
            let va = list_a.elems[0];
            let vb = list_b.elems[0];
            if va <= vb {
                result_elems.push(va);
                LinkedList::remove_head(&mut list_a);
                proof {
                    lemma_sorted_skip1(ai);
                    assert(result_elems@ =~= (result_elems@.drop_last() + seq![va]));
                    assert(merge_seq(ai, bi) =~= seq![va] + merge_seq(ai.skip(1), bi));
                    assert(result_elems@ + merge_seq(list_a@, list_b@) =~= merge_seq(a0, b0));
                }
            } else {
                result_elems.push(vb);
                LinkedList::remove_head(&mut list_b);
                proof {
                    lemma_sorted_skip1(bi);
                    assert(result_elems@ =~= (result_elems@.drop_last() + seq![vb]));
                    assert(merge_seq(ai, bi) =~= seq![vb] + merge_seq(ai, bi.skip(1)));
                    assert(result_elems@ + merge_seq(list_a@, list_b@) =~= merge_seq(a0, b0));
                }
            }
        }
        if list_a.length > 0 {
            proof {
                assert(merge_seq(list_a@, list_b@) == list_a@);
            }
            result_elems.append(&mut list_a.elems);
        }
        if list_b.length > 0 {
            proof {
                assert(merge_seq(list_a@, list_b@) == list_b@);
            }
            result_elems.append(&mut list_b.elems);
        }
        proof {
            assert(result_elems@ =~= merge_seq(a0, b0));
        }
        LinkedList { length: result_length, elems: result_elems }
    }

    /// Appends the rendering of `elems[i..]` to `out`.
    fn push_rendered(out: &mut Vec<char>, elems: &Vec<i32>, i: usize)
        requires
            i <= elems@.len(),
        ensures
            final(out)@ == old(out)@ + rendered_ints(elems@.skip(i as int)),
        decreases elems@.len() - i,
    {
        if i < elems.len() {
            push_int_chars(out, elems[i]);
            if i + 1 < elems.len() {
                out.push(',');
                out.push(' ');
            }
            Self::push_rendered(out, elems, i + 1);
            proof {
                assert(elems@.skip(i as int)[0] == elems@[i as int]);
                assert(elems@.skip(i as int).skip(1) =~= elems@.skip(i as int + 1));
                assert(out@ =~= old(out)@ + rendered_ints(elems@.skip(i as int)));
            }
        } else {
            proof {
                assert(elems@.skip(i as int) =~= Seq::<i32>::empty());
                assert(out@ =~= old(out)@ + rendered_ints(elems@.skip(i as int)));
            }
        }
    }

    /// Renders the list as its elements in order, separated by `", "`.
    pub fn render(&self) -> (s: String)
        ensures
            s@ == rendered_ints(self@),
    {
        let mut out: Vec<char> = Vec::new();
        Self::push_rendered(&mut out, &self.elems, 0);
        proof {
            assert(self@.skip(0) =~= self@);
        }
        chars_to_string(out)
    }
}

impl LinkedList<String> {
    /// Appends the rendering of `elems[i..]` to `out`.
    fn push_rendered_strs(out: &mut Vec<char>, elems: &Vec<String>, i: usize)
        requires
            i <= elems@.len(),
        ensures
            final(out)@ == old(out)@ + rendered_strs(elems@.skip(i as int)),
        decreases elems@.len() - i,
    {
        if i < elems.len() {
            let mut cs = str_chars(elems[i].as_str());
            out.append(&mut cs);
            if i + 1 < elems.len() {
                out.push(',');
                out.push(' ');
            }
            Self::push_rendered_strs(out, elems, i + 1);
            proof {
                assert(elems@.skip(i as int)[0] == elems@[i as int]);
                assert(elems@.skip(i as int).skip(1) =~= elems@.skip(i as int + 1));
                assert(out@ =~= old(out)@ + rendered_strs(elems@.skip(i as int)));
            }
        } else {
            proof {
                assert(elems@.skip(i as int) =~= Seq::<String>::empty());
                assert(out@ =~= old(out)@ + rendered_strs(elems@.skip(i as int)));
            }
        }
    }

    /// Renders the list as its elements in order, separated by `", "`.
    pub fn render(&self) -> (s: String)
        ensures
            s@ == rendered_strs(self@),
    {
        let mut out: Vec<char> = Vec::new();
        Self::push_rendered_strs(&mut out, &self.elems, 0);
        proof {
            assert(self@.skip(0) =~= self@);
        }
        chars_to_string(out)
    }
}

} // verus!

//! Sorting of directory listings.
//!
//! A raw directory listing carries no order, so the assembler sorts sections
//! and items lexicographically by path before any event is produced.  The
//! sort is an insertion sort, stated as the recursive specification
//! `sort_by_key` and implemented by `sort_entries`.

use vstd::prelude::*;
use crate::text::{lemma_lex_lt_irrefl, lemma_lex_lt_trans, lemma_lex_trichotomy, lex_leq, lex_lt};

verus! {

/// An entry ordered by a path key.
pub trait PathKeyed: Sized {
    /// The key the entry is sorted by.
    spec fn key(&self) -> Seq<char>;

    /// Compares two entries by key, in the order `lex_lt`.
    fn key_lt(&self, other: &Self) -> (r: bool)
        ensures
            r == lex_lt(self.key(), other.key()),
    ;
}

/// Whether the entries of `s` stand in ascending key order.
pub open spec fn sorted_by_key<T: PathKeyed>(s: Seq<T>) -> bool {
    forall|i: int, j: int| 0 <= i < j < s.len() ==> lex_leq(s[i].key(), s[j].key())
}

/// Whether no two entries of `s` share a key.
pub open spec fn distinct_keys<T: PathKeyed>(s: Seq<T>) -> bool {
    forall|i: int, j: int| 0 <= i < j < s.len() ==> s[i].key() != s[j].key()
}

/// `x`, inserted into `s` behind every entry whose key does not exceed its
/// own.
pub open spec fn insert_sorted<T: PathKeyed>(s: Seq<T>, x: T) -> Seq<T>
    decreases s.len(),
{
    if s.len() == 0 {
        seq![x]
    } else if lex_lt(x.key(), s.last().key()) {
        insert_sorted(s.drop_last(), x).push(s.last())
    } else {
        s.push(x)
    }
}

/// `s`, sorted by key: the insertion sort of its entries.
pub open spec fn sort_by_key<T: PathKeyed>(s: Seq<T>) -> Seq<T>
    decreases s.len(),
{
    if s.len() == 0 {
        Seq::empty()
    } else {
        insert_sorted(sort_by_key(s.drop_last()), s.last())
    }
}

proof fn lemma_insert_sorted_len<T: PathKeyed>(s: Seq<T>, x: T)
    ensures
        insert_sorted(s, x).len() == s.len() + 1,
    decreases s.len(),
{
    if s.len() > 0 && lex_lt(x.key(), s.last().key()) {
        lemma_insert_sorted_len(s.drop_last(), x);
    }
}

/// Sorting keeps the number of entries.
pub proof fn lemma_sort_len<T: PathKeyed>(s: Seq<T>)
    ensures
        sort_by_key(s).len() == s.len(),
    decreases s.len(),
{
    if s.len() > 0 {
        lemma_sort_len(s.drop_last());
        lemma_insert_sorted_len(sort_by_key(s.drop_last()), s.last());
    }
}

proof fn lemma_insert_sorted_multiset<T: PathKeyed>(s: Seq<T>, x: T)
    ensures
        insert_sorted(s, x).to_multiset() == s.to_multiset().insert(x),
    decreases s.len(),
{
    broadcast use vstd::seq_lib::group_to_multiset_ensures;

    if s.len() == 0 {
        assert(seq![x] =~= Seq::<T>::empty().push(x));
        assert(Seq::<T>::empty().push(x).to_multiset() =~= Seq::<T>::empty().to_multiset().insert(
            x,
        ));
        assert(s.to_multiset() =~= Seq::<T>::empty().to_multiset());
    } else if lex_lt(x.key(), s.last().key()) {
        lemma_insert_sorted_multiset(s.drop_last(), x);
        assert(insert_sorted(s.drop_last(), x).push(s.last()).to_multiset() =~= insert_sorted(
            s.drop_last(),
            x,
        ).to_multiset().insert(s.last()));
        assert(s =~= s.drop_last().push(s.last()));
        assert(s.to_multiset() =~= s.drop_last().to_multiset().insert(s.last()));
        assert(s.drop_last().to_multiset().insert(x).insert(s.last()) =~= s.drop_last()
            .to_multiset().insert(s.last()).insert(x));
    } else {
        assert(s.push(x).to_multiset() =~= s.to_multiset().insert(x));
    }
}

/// Sorting keeps the entries themselves: the result holds the same entries,
/// each the same number of times.
pub proof fn lemma_sort_multiset<T: PathKeyed>(s: Seq<T>)
    ensures
        sort_by_key(s).to_multiset() == s.to_multiset(),
    decreases s.len(),
{
    broadcast use vstd::seq_lib::group_to_multiset_ensures;

    if s.len() > 0 {
        lemma_sort_multiset(s.drop_last());
        lemma_insert_sorted_multiset(sort_by_key(s.drop_last()), s.last());
        assert(s =~= s.drop_last().push(s.last()));
        assert(s.to_multiset() =~= s.drop_last().to_multiset().insert(s.last()));
    }
}

proof fn lemma_insert_sorted_is_sorted<T: PathKeyed>(s: Seq<T>, x: T)
    requires
        sorted_by_key(s),
    ensures
        sorted_by_key(insert_sorted(s, x)),
    decreases s.len(),
{
    if s.len() == 0 {
    } else if lex_lt(x.key(), s.last().key()) {
        assert(sorted_by_key(s.drop_last()));
        lemma_insert_sorted_is_sorted(s.drop_last(), x);
        lemma_insert_sorted_len(s.drop_last(), x);
        let r = insert_sorted(s.drop_last(), x).push(s.last());
        assert forall|i: int, j: int| 0 <= i < j < r.len() implies lex_leq(r[i].key(), r[j].key())
        by {
            if j == r.len() - 1 {
                lemma_insert_sorted_key_bound(s.drop_last(), x, i);
            }
        }
    } else {
        let r = s.push(x);
        assert forall|i: int, j: int| 0 <= i < j < r.len() implies lex_leq(r[i].key(), r[j].key())
        by {
            if j == r.len() - 1 {
                lemma_lex_trichotomy(x.key(), s.last().key());
                if i < s.len() - 1 {
                    assert(lex_leq(s[i].key(), s.last().key()));
                    if lex_lt(s[i].key(), s.last().key()) && lex_lt(s.last().key(), x.key()) {
                        lemma_lex_lt_trans(s[i].key(), s.last().key(), x.key());
                    }
                }
            }
        }
    }
}

/// Every entry of `insert_sorted(s, x)` is `x` or carries the key of some
/// entry of `s`; used to bound keys below the insertion point.
proof fn lemma_insert_sorted_key_bound<T: PathKeyed>(s: Seq<T>, x: T, i: int)
    requires
        0 <= i < insert_sorted(s, x).len(),
    ensures
        insert_sorted(s, x)[i] == x || (exists|k: int|
            0 <= k < s.len() && insert_sorted(s, x)[i] == s[k]),
    decreases s.len(),
{
    lemma_insert_sorted_len(s, x);
    if s.len() == 0 {
    } else if lex_lt(x.key(), s.last().key()) {
        if i < insert_sorted(s, x).len() - 1 {
            lemma_insert_sorted_key_bound(s.drop_last(), x, i);
            assert forall|k: int| 0 <= k < s.len() - 1 implies s.drop_last()[k] == s[k] by {}
        } else {
            assert(insert_sorted(s, x)[i] == s[s.len() - 1]);
        }
    } else {
        if i < s.len() {
            assert(insert_sorted(s, x)[i] == s[i]);
        }
    }
}

/// The sort orders its result by key.
pub proof fn lemma_sort_sorted<T: PathKeyed>(s: Seq<T>)
    ensures
        sorted_by_key(sort_by_key(s)),
    decreases s.len(),
{
    if s.len() > 0 {
        lemma_sort_sorted(s.drop_last());
        lemma_insert_sorted_is_sorted(sort_by_key(s.drop_last()), s.last());
    }
}

/// Sorting an already sorted listing changes nothing: the sort is
/// idempotent.
pub proof fn lemma_sort_idempotent<T: PathKeyed>(s: Seq<T>)
    requires
        sorted_by_key(s),
    ensures
        sort_by_key(s) == s,
    decreases s.len(),
{
    if s.len() > 0 {
        assert(sorted_by_key(s.drop_last()));
        lemma_sort_idempotent(s.drop_last());
        let x = s.last();
        if s.len() == 1 {
            assert(insert_sorted(s.drop_last(), x) =~= s);
        } else {
            assert(lex_leq(s.drop_last().last().key(), x.key()));
            if lex_lt(x.key(), s.drop_last().last().key()) {
                if lex_lt(s.drop_last().last().key(), x.key()) {
                    lemma_lex_lt_trans(x.key(), s.drop_last().last().key(), x.key());
                    lemma_lex_lt_irrefl(x.key());
                } else {
                    lemma_lex_lt_irrefl(x.key());
                }
            }
            assert(s.drop_last().push(x) =~= s);
        }
    } else {
        assert(sort_by_key(s) =~= s);
    }
}

/// Two listings that hold the same entries, sorted by key and with no key
/// repeated, are the same listing: the sorted order is unique.
pub proof fn lemma_sorted_unique<T: PathKeyed>(x: Seq<T>, y: Seq<T>)
    requires
        sorted_by_key(x),
        sorted_by_key(y),
        distinct_keys(x),
        x.to_multiset() == y.to_multiset(),
    ensures
        x == y,
    decreases x.len(),
{
    broadcast use vstd::seq_lib::group_to_multiset_ensures;

    x.to_multiset_ensures();
    y.to_multiset_ensures();
    if x.len() == 0 {
        assert(y.len() == 0);
        assert(x =~= y);
    } else {
        assert(y.len() == x.len());
        assert(x.to_multiset().contains(x[0]));
        assert(y.contains(x[0]));
        let iy = choose|i: int| 0 <= i < y.len() && y[i] == x[0];
        assert(y.to_multiset().contains(y[0]));
        assert(x.contains(y[0]));
        let ix = choose|i: int| 0 <= i < x.len() && x[i] == y[0];
        if iy > 0 {
            assert(lex_leq(y[0].key(), y[iy].key()));
        }
        if ix > 0 {
            assert(lex_leq(x[0].key(), x[ix].key()));
        }
        assert(x[0].key() == y[0].key()) by {
            lemma_lex_trichotomy(x[0].key(), y[0].key());
            if lex_lt(x[0].key(), y[0].key()) {
                if lex_lt(y[0].key(), y[iy].key()) {
                    lemma_lex_lt_trans(x[0].key(), y[0].key(), y[iy].key());
                }
                lemma_lex_lt_irrefl(x[0].key());
            } else if lex_lt(y[0].key(), x[0].key()) {
                if lex_lt(x[0].key(), x[ix].key()) {
                    lemma_lex_lt_trans(y[0].key(), x[0].key(), x[ix].key());
                }
                lemma_lex_lt_irrefl(y[0].key());
            }
        }
        assert(x[0] == y[0]) by {
            if ix > 0 {
                assert(x[0].key() != x[ix].key());
                assert(false);
            }
        }
        assert(x.drop_first() =~= x.remove(0));
        assert(y.drop_first() =~= y.remove(0));
        vstd::seq_lib::to_multiset_remove(x, 0);
        vstd::seq_lib::to_multiset_remove(y, 0);
        assert(sorted_by_key(x.drop_first()));
        assert(distinct_keys(x.drop_first()));
        assert(sorted_by_key(y.drop_first()));
        lemma_sorted_unique(x.drop_first(), y.drop_first());
        assert(x =~= seq![x[0]] + x.drop_first());
        assert(y =~= seq![y[0]] + y.drop_first());
    }
}

/// Entries with the same keys in any two orders sort to the same listing.
pub proof fn lemma_sort_permutation<T: PathKeyed>(a: Seq<T>, b: Seq<T>)
    requires
        a.to_multiset() == b.to_multiset(),
        distinct_keys(a),
    ensures
        sort_by_key(a) == sort_by_key(b),
{
    lemma_sort_multiset(a);
    lemma_sort_multiset(b);
    lemma_sort_sorted(a);
    lemma_sort_sorted(b);
    assert(distinct_keys(sort_by_key(a))) by {
        lemma_distinct_keys_permutation(a, sort_by_key(a));
    }
    lemma_sorted_unique(sort_by_key(a), sort_by_key(b));
}

/// Distinct keys survive any reordering of the entries.
proof fn lemma_distinct_keys_permutation<T: PathKeyed>(a: Seq<T>, b: Seq<T>)
    requires
        distinct_keys(a),
        a.to_multiset() == b.to_multiset(),
    ensures
        distinct_keys(b),
{
    broadcast use vstd::seq_lib::group_to_multiset_ensures;

    a.to_multiset_ensures();
    b.to_multiset_ensures();
    assert forall|i: int, j: int| 0 <= i < j < b.len() implies b[i].key() != b[j].key() by {
        if b[i].key() == b[j].key() {
            if b[i] == b[j] {
                let c = b.remove(j);
                assert(c.to_multiset() =~= b.to_multiset().remove(b[j]));
                assert(c[i] == b[i]);
                assert(c.to_multiset().contains(c[i]));
                assert(a.to_multiset().remove(b[j]).contains(b[i]));
                assert(a.to_multiset().contains(b[i]));
                let ai = choose|k: int| 0 <= k < a.len() && a[k] == b[i];
                let c2 = a.remove(ai);
                assert(c2.to_multiset() =~= a.to_multiset().remove(b[i]));
                assert(c2.to_multiset().contains(b[i]));
                assert(c2.contains(b[i]));
                let ak = choose|k: int| 0 <= k < c2.len() && c2[k] == b[i];
                if ak < ai {
                    assert(c2[ak] == a[ak]);
                    assert(a[ak].key() == a[ai].key());
                    assert(false);
                } else {
                    assert(c2[ak] == a[ak + 1]);
                    assert(a[ak + 1].key() == a[ai].key());
                    assert(false);
                }
            } else {
                assert(b.to_multiset().contains(b[i]));
                assert(b.to_multiset().contains(b[j]));
                assert(a.contains(b[i]));
                assert(a.contains(b[j]));
                let ai = choose|k: int| 0 <= k < a.len() && a[k] == b[i];
                let aj = choose|k: int| 0 <= k < a.len() && a[k] == b[j];
                assert(ai != aj);
                assert(false);
            }
        }
    }
}

/// A property of every entry of a listing still holds of every entry once
/// the listing is sorted.
pub proof fn lemma_sort_preserves_all<T: PathKeyed>(s: Seq<T>, p: spec_fn(T) -> bool)
    requires
        forall|i: int| 0 <= i < s.len() ==> p(#[trigger] s[i]),
    ensures
        forall|i: int| 0 <= i < sort_by_key(s).len() ==> p(#[trigger] sort_by_key(s)[i]),
{
    broadcast use vstd::seq_lib::group_to_multiset_ensures;

    lemma_sort_multiset(s);
    let r = sort_by_key(s);
    assert forall|i: int| 0 <= i < r.len() implies p(r[i]) by {
        assert(r.contains(r[i]));
        assert(r.to_multiset().count(r[i]) > 0);
        assert(s.contains(r[i]));
    }
}

/// Where every entry from position `j` on has a key above `x`'s and the one
/// before position `j`, if any, does not, inserting `x` at `j` is the sorted
/// insertion.
proof fn lemma_insert_sorted_at<T: PathKeyed>(s: Seq<T>, x: T, j: int)
    requires
        0 <= j <= s.len(),
        forall|k: int| j <= k < s.len() ==> lex_lt(x.key(), #[trigger] s[k].key()),
        j > 0 ==> !lex_lt(x.key(), s[j - 1].key()),
    ensures
        insert_sorted(s, x) == s.insert(j, x),
    decreases s.len(),
{
    if s.len() == 0 {
        assert(seq![x] =~= s.insert(0, x));
    } else if j == s.len() {
        assert(s.push(x) =~= s.insert(j, x));
    } else {
        assert(lex_lt(x.key(), s.last().key()));
        lemma_insert_sorted_at(s.drop_last(), x, j);
        assert(s.drop_last().insert(j, x).push(s.last()) =~= s.insert(j, x));
    }
}

/// Sorts a listing of entries by key: the insertion sort `sort_by_key`.
pub fn sort_entries<T: PathKeyed>(v: Vec<T>) -> (r: Vec<T>)
    ensures
        r@ == sort_by_key(v@),
{
    let mut rest = v;
    let mut out: Vec<T> = Vec::new();
    let ghost whole = rest@;
    let ghost done: int = 0;
    proof {
        assert(whole.take(0) =~= Seq::<T>::empty());
        assert(whole.skip(0) =~= whole);
    }
    while rest.len() > 0
        invariant
            0 <= done <= whole.len(),
            rest@ == whole.skip(done),
            out@ == sort_by_key(whole.take(done)),
        decreases rest@.len(),
    {
        let x = rest.remove(0);
        proof {
            assert(whole.skip(done).remove(0) =~= whole.skip(done + 1));
            assert(whole.skip(done)[0] == whole[done]);
        }
        let ghost out_before = out@;
        let mut j: usize = out.len();
        loop
            invariant
                j <= out.len(),
                out@ == out_before,
                forall|k: int| j <= k < out@.len() ==> lex_lt(x.key(), #[trigger] out@[k].key()),
            ensures
                j <= out.len(),
                out@ == out_before,
                forall|k: int| j <= k < out@.len() ==> lex_lt(x.key(), #[trigger] out@[k].key()),
                j > 0 ==> !lex_lt(x.key(), out@[j - 1].key()),
            decreases j,
        {
            if j == 0 {
                break ;
            }
            if !x.key_lt(&out[j - 1]) {
                break ;
            }
            j = j - 1;
        }
        out.insert(j, x);
        proof {
            lemma_insert_sorted_at(out_before, x, j as int);
            assert(whole.take(done + 1).drop_last() =~= whole.take(done));
            assert(whole.take(done + 1).last() == whole[done]);
            done = done + 1;
        }
    }
    proof {
        assert(whole.take(done) =~= whole);
    }
    out
}

} // verus!

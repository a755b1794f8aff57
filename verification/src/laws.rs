//! Laws the library guarantees beyond the contracts of the single
//! functions, stated and proved over the same models those contracts use.

use vstd::multiset::Multiset;
use vstd::prelude::*;

use crate::builtins::{spec_insert_sorted, spec_sort_objs};
use crate::objects::{spec_chars_le, spec_obj_le, spec_obj_wf, spec_rank, SpecObject};

verus! {

/// The sort order compares any two values one way or the other.
pub proof fn lemma_obj_le_total(a: SpecObject, b: SpecObject)
    ensures
        spec_obj_le(a, b) || spec_obj_le(b, a),
{
    lemma_chars_le_total(a->String_0, b->String_0);
}

/// String order is total.
proof fn lemma_chars_le_total(a: Seq<char>, b: Seq<char>)
    ensures
        spec_chars_le(a, b) || spec_chars_le(b, a),
    decreases a.len(),
{
    if a.len() > 0 && b.len() > 0 && a[0] == b[0] {
        lemma_chars_le_total(a.drop_first(), b.drop_first());
    }
}

/// Sortedness under the object order: every earlier element compares no
/// greater than every later one.
pub open spec fn objs_sorted(s: Seq<SpecObject>) -> bool {
    forall|i: int, j: int| 0 <= i < j < s.len() ==> spec_obj_le(#[trigger] s[i], #[trigger] s[j])
}

/// Inserting into a sorted sequence keeps it sorted.
proof fn lemma_insert_keeps_sorted(x: SpecObject, s: Seq<SpecObject>)
    requires
        objs_sorted(s),
    ensures
        objs_sorted(spec_insert_sorted(x, s)),
    decreases s.len(),
{
    if s.len() > 0 && spec_obj_le(s[0], x) {
        let d = s.drop_first();
        assert(objs_sorted(d)) by {
            assert forall|i: int, j: int| 0 <= i < j < d.len() implies spec_obj_le(
                #[trigger] d[i],
                #[trigger] d[j],
            ) by {
                assert(d[i] == s[i + 1]);
                assert(d[j] == s[j + 1]);
            }
        }
        lemma_insert_keeps_sorted(x, d);
        let r = seq![s[0]] + spec_insert_sorted(x, d);
        let t = spec_insert_sorted(x, d);
        assert forall|i: int, j: int| 0 <= i < j < r.len() implies spec_obj_le(
            #[trigger] r[i],
            #[trigger] r[j],
        ) by {
            if i == 0 {
                assert(r[j] == t[j - 1]);
                lemma_insert_member(x, d, j - 1);
                if t[j - 1] == x {
                    assert(spec_obj_le(s[0], x));
                } else {
                    let k = choose|k: int| 0 <= k < d.len() && t[j - 1] == d[k];
                    assert(s[0] == s[0] && d[k] == s[k + 1]);
                    assert(spec_obj_le(s[0], s[k + 1]));
                }
            } else {
                assert(r[i] == t[i - 1]);
                assert(r[j] == t[j - 1]);
            }
        }
    } else {
        let r = seq![x] + s;
        lemma_chars_le_total(x->String_0, arbitrary());
        assert forall|i: int, j: int| 0 <= i < j < r.len() implies spec_obj_le(
            #[trigger] r[i],
            #[trigger] r[j],
        ) by {
            if i == 0 {
                assert(r[j] == s[j - 1]);
                if s.len() > 0 {
                    lemma_obj_le_total(s[0], x);
                    assert(spec_obj_le(x, s[0]));
                    if j - 1 > 0 {
                        assert(spec_obj_le(s[0], s[j - 1]));
                        lemma_obj_le_trans(x, s[0], s[j - 1]);
                    }
                }
            } else {
                assert(r[i] == s[i - 1]);
                assert(r[j] == s[j - 1]);
            }
        }
    }
}

/// Every element of an insertion's result is the inserted value or one
/// of the old elements.
proof fn lemma_insert_member(x: SpecObject, s: Seq<SpecObject>, i: int)
    requires
        0 <= i < spec_insert_sorted(x, s).len(),
    ensures
        spec_insert_sorted(x, s)[i] == x || exists|k: int|
            0 <= k < s.len() && spec_insert_sorted(x, s)[i] == s[k],
    decreases s.len(),
{
    if s.len() > 0 && spec_obj_le(s[0], x) {
        if i > 0 {
            lemma_insert_member(x, s.drop_first(), i - 1);
            let t = spec_insert_sorted(x, s.drop_first());
            if t[i - 1] != x {
                let k = choose|k: int|
                    0 <= k < s.drop_first().len() && t[i - 1] == s.drop_first()[k];
                assert(s.drop_first()[k] == s[k + 1]);
            }
        }
    } else {
        if i > 0 {
            assert((seq![x] + s)[i] == s[i - 1]);
        }
    }
}

/// The sort order is transitive.
pub proof fn lemma_obj_le_trans(a: SpecObject, b: SpecObject, c: SpecObject)
    requires
        spec_obj_le(a, b),
        spec_obj_le(b, c),
    ensures
        spec_obj_le(a, c),
{
    if spec_rank(a) == spec_rank(b) && spec_rank(b) == spec_rank(c) && a is String {
        lemma_chars_le_trans(a->String_0, b->String_0, c->String_0);
    }
}

/// String order is transitive.
proof fn lemma_chars_le_trans(a: Seq<char>, b: Seq<char>, c: Seq<char>)
    requires
        spec_chars_le(a, b),
        spec_chars_le(b, c),
    ensures
        spec_chars_le(a, c),
    decreases a.len(),
{
    if a.len() > 0 && b.len() > 0 && c.len() > 0 {
        if a[0] == b[0] && b[0] == c[0] {
            lemma_chars_le_trans(a.drop_first(), b.drop_first(), c.drop_first());
        }
    }
}

/// Law: sorting yields a sorted sequence.
pub proof fn lemma_sort_sorted(s: Seq<SpecObject>)
    ensures
        objs_sorted(spec_sort_objs(s)),
    decreases s.len(),
{
    if s.len() > 0 {
        lemma_sort_sorted(s.drop_last());
        lemma_insert_keeps_sorted(s.last(), spec_sort_objs(s.drop_last()));
    }
}

/// Inserting a value no smaller than every element appends it.
proof fn lemma_insert_at_end(x: SpecObject, s: Seq<SpecObject>)
    requires
        forall|m: int| 0 <= m < s.len() ==> spec_obj_le(#[trigger] s[m], x),
    ensures
        spec_insert_sorted(x, s) == s + seq![x],
    decreases s.len(),
{
    if s.len() > 0 && spec_obj_le(s[0], x) {
        let d = s.drop_first();
        assert forall|m: int| 0 <= m < d.len() implies spec_obj_le(#[trigger] d[m], x) by {
            assert(d[m] == s[m + 1]);
        }
        lemma_insert_at_end(x, d);
        assert(seq![s[0]] + (d + seq![x]) =~= s + seq![x]);
    } else {
        assert(s.len() == 0);
        assert(seq![x] + s =~= s + seq![x]);
    }
}

/// Law: sorting an already-sorted sequence returns it unchanged.
pub proof fn lemma_sort_of_sorted(s: Seq<SpecObject>)
    requires
        objs_sorted(s),
    ensures
        spec_sort_objs(s) == s,
    decreases s.len(),
{
    if s.len() > 0 {
        let d = s.drop_last();
        assert(objs_sorted(d)) by {
            assert forall|i: int, j: int| 0 <= i < j < d.len() implies spec_obj_le(
                #[trigger] d[i],
                #[trigger] d[j],
            ) by {
                assert(d[i] == s[i]);
                assert(d[j] == s[j]);
            }
        }
        lemma_sort_of_sorted(d);
        assert forall|m: int| 0 <= m < d.len() implies spec_obj_le(#[trigger] d[m], s.last()) by {
            assert(d[m] == s[m]);
        }
        lemma_insert_at_end(s.last(), d);
        assert(d + seq![s.last()] =~= s);
    } else {
        assert(spec_sort_objs(s) =~= s);
    }
}

/// Law: `sort` is idempotent — sorting a sorted list changes nothing, so
/// sorting twice is the same as sorting once.
pub proof fn lemma_sort_idempotent(s: Seq<SpecObject>)
    ensures
        spec_sort_objs(spec_sort_objs(s)) == spec_sort_objs(s),
{
    lemma_sort_sorted(s);
    lemma_sort_of_sorted(spec_sort_objs(s));
}


/// Inserting a well-formed value into a well-formed sequence keeps every
/// element well-formed.
proof fn lemma_insert_wf(x: SpecObject, s: Seq<SpecObject>, n: int)
    requires
        spec_obj_wf(x, n),
        forall|i: int| 0 <= i < s.len() ==> spec_obj_wf(#[trigger] s[i], n),
    ensures
        forall|i: int|
            0 <= i < spec_insert_sorted(x, s).len() ==> spec_obj_wf(
                #[trigger] spec_insert_sorted(x, s)[i],
                n,
            ),
{
    assert forall|i: int| 0 <= i < spec_insert_sorted(x, s).len() implies spec_obj_wf(
        #[trigger] spec_insert_sorted(x, s)[i],
        n,
    ) by {
        lemma_insert_member(x, s, i);
    }
}

/// Sorting keeps every element well-formed: sorted values are drawn from
/// the original sequence.
pub proof fn lemma_sort_objs_wf(s: Seq<SpecObject>, n: int)
    requires
        forall|i: int| 0 <= i < s.len() ==> spec_obj_wf(#[trigger] s[i], n),
    ensures
        forall|i: int|
            0 <= i < spec_sort_objs(s).len() ==> spec_obj_wf(#[trigger] spec_sort_objs(s)[i], n),
    decreases s.len(),
{
    if s.len() > 0 {
        let d = s.drop_last();
        assert forall|i: int| 0 <= i < d.len() implies spec_obj_wf(#[trigger] d[i], n) by {
            assert(d[i] == s[i]);
        }
        lemma_sort_objs_wf(d, n);
        lemma_insert_wf(s.last(), spec_sort_objs(d), n);
    }
}


/// Insertion contributes exactly the inserted value to the contents.
proof fn lemma_insert_multiset(x: SpecObject, s: Seq<SpecObject>)
    ensures
        spec_insert_sorted(x, s).to_multiset() == s.to_multiset().insert(x),
    decreases s.len(),
{
    if s.len() > 0 && spec_obj_le(s[0], x) {
        let d = s.drop_first();
        lemma_insert_multiset(x, d);
        let t = spec_insert_sorted(x, d);
        vstd::seq_lib::lemma_multiset_commutative(seq![s[0]], t);
        vstd::seq_lib::lemma_multiset_commutative(seq![s[0]], d);
        assert(Seq::<SpecObject>::empty().push(s[0]) =~= seq![s[0]]);
        Seq::<SpecObject>::empty().to_multiset_ensures();
        assert(seq![s[0]].to_multiset() =~= Multiset::empty().insert(s[0]));
        assert(seq![s[0]] + d =~= s);
        assert(spec_insert_sorted(x, s).to_multiset() =~= s.to_multiset().insert(x));
    } else {
        vstd::seq_lib::lemma_multiset_commutative(seq![x], s);
        assert(Seq::<SpecObject>::empty().push(x) =~= seq![x]);
        Seq::<SpecObject>::empty().to_multiset_ensures();
        assert(seq![x].to_multiset() =~= Multiset::empty().insert(x));
        assert(spec_insert_sorted(x, s).to_multiset() =~= s.to_multiset().insert(x));
    }
}

/// Law: sorting permutes — the sorted list holds exactly the original
/// elements, multiplicities included.
pub proof fn lemma_sort_permutes(s: Seq<SpecObject>)
    ensures
        spec_sort_objs(s).to_multiset() == s.to_multiset(),
    decreases s.len(),
{
    if s.len() > 0 {
        let d = s.drop_last();
        lemma_sort_permutes(d);
        lemma_insert_multiset(s.last(), spec_sort_objs(d));
        assert(spec_sort_objs(s) == spec_insert_sorted(s.last(), spec_sort_objs(d)));
        assert(spec_sort_objs(s).to_multiset() == spec_sort_objs(d).to_multiset().insert(
            s.last(),
        ));
        assert(s.to_multiset() == d.to_multiset().insert(s.last())) by {
            d.to_multiset_ensures();
            assert(d.push(s.last()) =~= s);
            assert(d.push(s.last()).to_multiset() =~= d.to_multiset().insert(s.last()));
        }
    } else {
        assert(spec_sort_objs(s) =~= s);
    }
}

} // verus!

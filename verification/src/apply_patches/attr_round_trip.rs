//! Attributes that come back when the attribute patches of a diff are applied: those of the
//! kept names in their order, then those of new names.
use super::at_path::{keep_not_named, named_among};
use super::round_trip::attrs_after;
use crate::diff::reorder::{distinct_names, lemma_group_distinct, lemma_group_index_found};
use crate::diff::{added_attrs, removed_attrs, values_view};
use crate::node::attribute::{
    group_by_name, group_index, lemma_group_index_in_range, Att, Attribute, Ns, Val,
};
use crate::node::element::{attr_view, attrs_view};
use crate::node::Element;
use vstd::prelude::*;

verus! {

/// The attributes of `a` whose names some attribute of `b` has, in their order.
pub open spec fn named_in(a: Seq<Attribute>, b: Seq<Attribute>) -> Seq<Attribute>
    decreases a.len(),
{
    if a.len() == 0 {
        Seq::empty()
    } else {
        named_in(a.drop_last(), b) + if named_among(a.last().name@, b) {
            seq![a.last()]
        } else {
            Seq::empty()
        }
    }
}

/// The attributes of `a` whose names no attribute of `b` has, in their order.
pub open spec fn not_named_in(a: Seq<Attribute>, b: Seq<Attribute>) -> Seq<Attribute>
    decreases a.len(),
{
    if a.len() == 0 {
        Seq::empty()
    } else {
        not_named_in(a.drop_last(), b) + if named_among(a.last().name@, b) {
            Seq::empty()
        } else {
            seq![a.last()]
        }
    }
}

/// `b` holds first the attributes of `a` whose names it keeps, in their order, then
/// attributes of names that `a` does not have; the names of each are distinct. Attributes of
/// `a` may be taken out, and attributes of new names added after the others.
pub open spec fn trimmed_then_added(a: Seq<Attribute>, b: Seq<Attribute>) -> bool {
    let k = named_in(a, b).len() as int;
    &&& distinct_names(a)
    &&& distinct_names(b)
    &&& k <= b.len()
    &&& b.take(k) == named_in(a, b)
    &&& forall|i: int| k <= i < b.len() ==> !named_among((#[trigger] b[i]).name@, a)
}

/// What `named_in` and `not_named_in` keep are attributes of `a`.
proof fn lemma_named_in_from(a: Seq<Attribute>, b: Seq<Attribute>)
    ensures
        forall|i: int|
            0 <= i < named_in(a, b).len() ==> a.contains(#[trigger] named_in(a, b)[i])
                && named_among(named_in(a, b)[i].name@, b),
        forall|i: int|
            0 <= i < not_named_in(a, b).len() ==> a.contains(#[trigger] not_named_in(a, b)[i])
                && !named_among(not_named_in(a, b)[i].name@, b),
    decreases a.len(),
{
    if a.len() > 0 {
        let p = a.drop_last();
        lemma_named_in_from(p, b);
        assert forall|i: int| 0 <= i < named_in(a, b).len() implies a.contains(
            #[trigger] named_in(a, b)[i],
        ) && named_among(named_in(a, b)[i].name@, b) by {
            if i < named_in(p, b).len() {
                assert(named_in(a, b)[i] == named_in(p, b)[i]);
                let j = choose|j: int| 0 <= j < p.len() && p[j] == named_in(p, b)[i];
                assert(a[j] == p[j]);
            } else {
                assert(a[a.len() - 1] == a.last());
            }
        }
        assert forall|i: int| 0 <= i < not_named_in(a, b).len() implies a.contains(
            #[trigger] not_named_in(a, b)[i],
        ) && !named_among(not_named_in(a, b)[i].name@, b) by {
            if i < not_named_in(p, b).len() {
                assert(not_named_in(a, b)[i] == not_named_in(p, b)[i]);
                let j = choose|j: int| 0 <= j < p.len() && p[j] == not_named_in(p, b)[i];
                assert(a[j] == p[j]);
            } else {
                assert(a[a.len() - 1] == a.last());
            }
        }
    }
}

/// The group of a name that some attribute of `a` has, among attributes of distinct names, is
/// that attribute's.
proof fn lemma_group_of(a: Seq<Attribute>, j: int)
    requires
        distinct_names(a),
        0 <= j < a.len(),
    ensures
        group_index(group_by_name(a), a[j].name@) == Some(j),
        group_by_name(a)[j] == (a[j].name@, seq![a[j]]),
{
    lemma_group_distinct(a);
    let g = group_by_name(a);
    lemma_group_index_found(g, a[j].name@, j);
    lemma_group_index_in_range(g, a[j].name@);
    let i = group_index(g, a[j].name@)->0;
    if i != j {
        if i < j {
            assert(a[i].name@ != a[j].name@);
        } else {
            assert(a[j].name@ != a[i].name@);
        }
    }
}

/// A name that no attribute of `a` has has no group.
proof fn lemma_group_of_none(a: Seq<Attribute>, name: Seq<char>)
    requires
        distinct_names(a),
        !named_among(name, a),
    ensures
        group_index(group_by_name(a), name) is None,
{
    lemma_group_distinct(a);
    lemma_group_index_in_range(group_by_name(a), name);
    if let Some(i) = group_index(group_by_name(a), name) {
        assert(a[i].name@ == name);
    }
}

/// The attributes that the diff adds: those of `b` after the kept ones.
proof fn lemma_added(a: Seq<Attribute>, b: Seq<Attribute>, n: int)
    requires
        trimmed_then_added(a, b),
        0 <= n <= b.len(),
    ensures
        added_attrs(group_by_name(a), group_by_name(b), n) == (if n <= named_in(a, b).len() {
            Seq::<Attribute>::empty()
        } else {
            b.subrange(named_in(a, b).len() as int, n)
        }),
    decreases n,
{
    let k = named_in(a, b).len() as int;
    if n > 0 {
        lemma_added(a, b, n - 1);
        lemma_group_distinct(b);
        let og = group_by_name(a);
        let ng = group_by_name(b);
        let bn = b[n - 1];
        assert(ng[n - 1] == (bn.name@, seq![bn]));
        if n - 1 < k {
            assert(b.take(k)[n - 1] == bn);
            lemma_named_in_from(a, b);
            assert(a.contains(named_in(a, b)[n - 1]));
            let j = choose|j: int| 0 <= j < a.len() && a[j] == bn;
            lemma_group_of(a, j);
            assert(values_view(og[j].1) =~= values_view(ng[n - 1].1));
            assert(added_attrs(og, ng, n) =~= Seq::<Attribute>::empty());
        } else {
            lemma_group_of_none(a, bn.name@);
            assert(added_attrs(og, ng, n) =~= b.subrange(k, n));
        }
    }
}

/// The attributes that the diff removes: those of `a` whose names `b` does not have.
proof fn lemma_removed(a: Seq<Attribute>, b: Seq<Attribute>, n: int)
    requires
        distinct_names(a),
        distinct_names(b),
        0 <= n <= a.len(),
    ensures
        removed_attrs(group_by_name(a), group_by_name(b), n) == not_named_in(a.take(n), b),
    decreases n,
{
    if n > 0 {
        lemma_removed(a, b, n - 1);
        lemma_group_distinct(a);
        let og = group_by_name(a);
        let ng = group_by_name(b);
        let an = a[n - 1];
        assert(og[n - 1] == (an.name@, seq![an]));
        assert(a.take(n).drop_last() =~= a.take(n - 1));
        assert(a.take(n).last() == an);
        if named_among(an.name@, b) {
            let i = choose|i: int| 0 <= i < b.len() && (#[trigger] b[i]).name@ == an.name@;
            lemma_group_of(b, i);
        } else {
            lemma_group_of_none(b, an.name@);
        }
    }
}

/// Keeping the attributes of two sequences put together.
proof fn lemma_keep_concat(
    s: Seq<(Option<Ns>, Att, Seq<Val>)>,
    t: Seq<(Option<Ns>, Att, Seq<Val>)>,
    rm: Seq<Attribute>,
)
    ensures
        keep_not_named(s + t, rm) == keep_not_named(s, rm) + keep_not_named(t, rm),
    decreases t.len(),
{
    if t.len() == 0 {
        assert(s + t =~= s);
        assert(keep_not_named(s, rm) + keep_not_named(t, rm) =~= keep_not_named(s, rm));
    } else {
        assert((s + t).drop_last() =~= s + t.drop_last());
        assert((s + t).last() == t.last());
        lemma_keep_concat(s, t.drop_last(), rm);
        assert(keep_not_named(s + t, rm) =~= keep_not_named(s, rm) + keep_not_named(t, rm));
    }
}

/// None of the attributes of `t`, whose names `a` does not have, goes.
proof fn lemma_keep_fresh(t: Seq<Attribute>, a: Seq<Attribute>, b: Seq<Attribute>)
    requires
        forall|i: int| 0 <= i < t.len() ==> !named_among((#[trigger] t[i]).name@, a),
    ensures
        keep_not_named(attrs_view(t), not_named_in(a, b)) == attrs_view(t),
    decreases t.len(),
{
    if t.len() > 0 {
        let p = t.drop_last();
        assert forall|i: int| 0 <= i < p.len() implies !named_among((#[trigger] p[i]).name@, a) by {
            assert(p[i] == t[i]);
        }
        lemma_keep_fresh(p, a, b);
        assert(attrs_view(t).drop_last() =~= attrs_view(p));
        let rm = not_named_in(a, b);
        lemma_named_in_from(a, b);
        if named_among(t.last().name@, rm) {
            let i = choose|i: int| 0 <= i < rm.len() && (#[trigger] rm[i]).name@ == t.last().name@;
            assert(a.contains(rm[i]));
            let j = choose|j: int| 0 <= j < a.len() && a[j] == rm[i];
            assert(a[j].name@ == t[t.len() - 1].name@);
        }
        assert(attrs_view(t) =~= attrs_view(p).push(attr_view(t.last())));
    }
}

/// The attributes of `a` that stay, of those whose names `b` does not have taken out, are
/// those whose names `b` has.
proof fn lemma_keep_kept(a: Seq<Attribute>, b: Seq<Attribute>, n: int)
    requires
        0 <= n <= a.len(),
    ensures
        keep_not_named(attrs_view(a.take(n)), not_named_in(a, b)) == attrs_view(
            named_in(a.take(n), b),
        ),
    decreases n,
{
    if n > 0 {
        lemma_keep_kept(a, b, n - 1);
        let an = a[n - 1];
        let rm = not_named_in(a, b);
        assert(a.take(n).drop_last() =~= a.take(n - 1));
        assert(a.take(n).last() == an);
        assert(attrs_view(a.take(n)).drop_last() =~= attrs_view(a.take(n - 1)));
        assert(attrs_view(a.take(n)).last() == attr_view(an));
        lemma_named_in_from(a, b);
        if !named_among(an.name@, b) {
            lemma_not_named_in_has(a, b, n - 1);
        }
        if named_among(an.name@, rm) {
            let i = choose|i: int| 0 <= i < rm.len() && (#[trigger] rm[i]).name@ == an.name@;
            assert(!named_among(rm[i].name@, b));
        }
        assert(attrs_view(named_in(a.take(n), b)) =~= attrs_view(named_in(a.take(n - 1), b)) + if named_among(an.name@, b) {
            seq![attr_view(an)]
        } else {
            Seq::empty()
        });
    }
}

/// An attribute of `a` whose name `b` does not have is among `not_named_in(a, b)`.
proof fn lemma_not_named_in_has(a: Seq<Attribute>, b: Seq<Attribute>, j: int)
    requires
        0 <= j < a.len(),
        !named_among(a[j].name@, b),
    ensures
        named_among(a[j].name@, not_named_in(a, b)),
    decreases a.len(),
{
    let p = a.drop_last();
    if j < a.len() - 1 {
        assert(p[j] == a[j]);
        lemma_not_named_in_has(p, b, j);
        let i = choose|i: int| 0 <= i < not_named_in(p, b).len() && (#[trigger] not_named_in(p, b)[i]).name@ == a[j].name@;
        assert(not_named_in(a, b)[i] == not_named_in(p, b)[i]);
    } else {
        let r = not_named_in(a, b);
        assert(r[r.len() - 1] == a.last());
    }
}

/// Attributes of `b` that are those of `a` whose names it keeps, then attributes of new names,
/// come back when the attribute patches of the diff of `x` into `y` apply.
pub proof fn lemma_trimmed_then_added(x: Element, y: Element)
    requires
        trimmed_then_added(x.attrs@, y.attrs@),
    ensures
        attrs_after(x, y) == attrs_view(y.attrs@),
{
    let a = x.attrs@;
    let b = y.attrs@;
    let k = named_in(a, b).len() as int;
    lemma_added(a, b, b.len() as int);
    lemma_removed(a, b, a.len() as int);
    assert(a.take(a.len() as int) =~= a);
    let fresh = if b.len() <= k {
        Seq::<Attribute>::empty()
    } else {
        b.subrange(k, b.len() as int)
    };
    let rm = not_named_in(a, b);
    lemma_keep_concat(attrs_view(a), attrs_view(fresh), rm);
    assert forall|i: int| 0 <= i < fresh.len() implies !named_among((#[trigger] fresh[i]).name@, a) by {
        assert(fresh[i] == b[k + i]);
    }
    lemma_keep_fresh(fresh, a, b);
    lemma_keep_kept(a, b, a.len() as int);
    assert(b =~= b.take(k) + fresh);
    assert(attrs_view(b.take(k) + fresh) =~= attrs_view(b.take(k)) + attrs_view(fresh));
    let og = group_by_name(a);
    let ng = group_by_name(b);
    assert(added_attrs(og, ng, ng.len() as int) == fresh) by {
        lemma_group_distinct(b);
        if b.len() <= k {
            assert(fresh =~= Seq::<Attribute>::empty());
        }
    }
    assert(removed_attrs(og, ng, og.len() as int) == rm) by {
        lemma_group_distinct(a);
    }
    assert(named_in(a.take(a.len() as int), b) == named_in(a, b));
    assert(attrs_after(x, y) == keep_not_named(attrs_view(a), rm) + keep_not_named(
        attrs_view(fresh),
        rm,
    ));
}

} // verus!

//! Attributes of elements, and the grouping and merging of attributes by name.
use crate::text::str_eq;
use indexmap::IndexMap;
use vstd::prelude::*;
use vstd::string::*;

verus! {

/// The namespace of an element or an attribute.
pub type Ns = &'static str;

/// The tag of an element.
pub type Tag = &'static str;

/// The name of an attribute.
pub type Att = &'static str;

/// A value of an attribute.
pub type Val = String;

/// These are the plain attributes of an element
#[derive(Debug, PartialEq, Eq)]
pub struct Attribute {
    /// namespace of an attribute.
    /// This is specifically used by svg attributes
    /// such as xlink-href
    pub namespace: Option<Ns>,
    /// the attribute name
    pub name: Att,
    /// the attribute values
    pub value: Vec<Val>,
}

impl Attribute {
    /// create a plain attribute with namespace
    pub fn new(namespace: Option<Ns>, name: Att, value: Val) -> (r: Self)
        ensures
            r.namespace == namespace,
            r.name == name,
            r.value@ == seq![value],
    {
        let mut values = Vec::new();
        values.push(value);
        Attribute { name, value: values, namespace }
    }

    /// create from multiple values
    pub fn with_multiple_values(namespace: Option<Ns>, name: Att, value: Vec<Val>) -> (r: Self)
        ensures
            r.namespace == namespace,
            r.name == name,
            r.value == value,
    {
        Attribute { name, value, namespace }
    }

    /// return the name of this attribute
    pub fn name(&self) -> (r: &Att)
        ensures
            *r == self.name,
    {
        &self.name
    }

    /// return the value of this attribute
    pub fn value(&self) -> (r: &[Val])
        ensures
            r@ == self.value@,
    {
        self.value.as_slice()
    }

    /// return the namespace of this attribute
    pub fn namespace(&self) -> (r: Option<&Ns>)
        ensures
            r == (match self.namespace {
                Some(n) => Some(&n),
                None => None::<&Ns>,
            }),
    {
        match &self.namespace {
            Some(n) => Some(n),
            None => None,
        }
    }
}

impl Clone for Attribute {
    fn clone(&self) -> (r: Self)
        ensures
            r.namespace == self.namespace,
            r.name == self.name,
            r.value@ == self.value@,
    {
        let value = self.value.clone();
        proof {
            assert forall|j: int| 0 <= j < value@.len() implies value@[j] == self.value@[j] by {
                assert(vstd::pervasive::cloned::<String>(self.value@[j], value@[j]));
            }
            assert(value@ =~= self.value@);
        }
        Attribute { namespace: self.namespace, name: self.name, value }
    }
}

/// Create an attribute
pub fn attr(name: Att, value: &str) -> (r: Attribute)
    ensures
        r.namespace.is_none(),
        r.name == name,
        r.value@.len() == 1,
        r.value@[0]@ == value@,
{
    attr_ns(None, name, String::from_str(value))
}

/// Create an attribute with namespace
pub fn attr_ns(namespace: Option<Ns>, name: Att, value: Val) -> (r: Attribute)
    ensures
        r.namespace == namespace,
        r.name == name,
        r.value@ == seq![value],
{
    Attribute::new(namespace, name, value)
}

/// The values of all the attributes named `name`, in the order of the attributes.
pub open spec fn attr_vals(attrs: Seq<Attribute>, name: Seq<char>) -> Seq<Val>
    decreases attrs.len(),
{
    if attrs.len() == 0 {
        Seq::empty()
    } else {
        attr_vals(attrs.drop_last(), name) + if attrs.last().name@ == name {
            attrs.last().value@
        } else {
            Seq::empty()
        }
    }
}

/// Whether some attribute is named `name`.
pub open spec fn has_attr_named(attrs: Seq<Attribute>, name: Seq<char>) -> bool {
    exists|i: int| 0 <= i < attrs.len() && (#[trigger] attrs[i]).name@ == name
}

/// The position of the first group named `name`, if any.
pub open spec fn group_index(groups: Seq<(Seq<char>, Seq<Attribute>)>, name: Seq<char>) -> Option<
    int,
>
    decreases groups.len(),
{
    if groups.len() == 0 {
        None
    } else {
        match group_index(groups.drop_last(), name) {
            Some(i) => Some(i),
            None => if groups.last().0 == name {
                Some(groups.len() - 1)
            } else {
                None
            },
        }
    }
}

/// The attributes grouped by name: one group per distinct name, in the order in which the
/// names first occur, each group holding the attributes of that name in their order.
pub open spec fn group_by_name(attrs: Seq<Attribute>) -> Seq<(Seq<char>, Seq<Attribute>)>
    decreases attrs.len(),
{
    if attrs.len() == 0 {
        Seq::empty()
    } else {
        let g = group_by_name(attrs.drop_last());
        let a = attrs.last();
        match group_index(g, a.name@) {
            Some(i) => g.update(i, (g[i].0, g[i].1.push(a))),
            None => g.push((a.name@, seq![a])),
        }
    }
}

/// The abstract value of the groups that `group_attributes_per_name` returns.
pub open spec fn groups_view(g: Seq<(&Att, Vec<&Attribute>)>) -> Seq<(Seq<char>, Seq<Attribute>)> {
    g.map_values(|e: (&Att, Vec<&Attribute>)| ((*e.0)@, e.1@.map_values(|a: &Attribute| *a)))
}

/// The attributes merged by name: one entry per distinct name, in the order in which the
/// names first occur, holding the name as first written and the values of all the attributes
/// of that name, in their order.
pub open spec fn merge_by_name(attrs: Seq<Attribute>) -> Seq<(Att, Seq<Val>)>
    decreases attrs.len(),
{
    if attrs.len() == 0 {
        Seq::empty()
    } else {
        let m = merge_by_name(attrs.drop_last());
        let a = attrs.last();
        match merged_index(m, a.name@) {
            Some(i) => m.update(i, (m[i].0, m[i].1 + a.value@)),
            None => m.push((a.name, a.value@)),
        }
    }
}

/// The position of the first merged entry named `name`, if any.
pub open spec fn merged_index(m: Seq<(Att, Seq<Val>)>, name: Seq<char>) -> Option<int>
    decreases m.len(),
{
    if m.len() == 0 {
        None
    } else {
        match merged_index(m.drop_last(), name) {
            Some(i) => Some(i),
            None => if m.last().0@ == name {
                Some(m.len() - 1)
            } else {
                None
            },
        }
    }
}

/// A found group is in range and has the name.
pub proof fn lemma_group_index_in_range(g: Seq<(Seq<char>, Seq<Attribute>)>, name: Seq<char>)
    ensures
        group_index(g, name) matches Some(i) ==> 0 <= i < g.len() && g[i].0 == name,
    decreases g.len(),
{
    if g.len() > 0 {
        lemma_group_index_in_range(g.drop_last(), name);
    }
}

/// Looking a name up among groups depends on the names of the groups alone.
proof fn lemma_group_index_names(
    g: Seq<(Seq<char>, Seq<Attribute>)>,
    h: Seq<(Seq<char>, Seq<Attribute>)>,
    name: Seq<char>,
)
    requires
        g.len() == h.len(),
        forall|k: int| 0 <= k < g.len() ==> (#[trigger] g[k]).0 == h[k].0,
    ensures
        group_index(g, name) == group_index(h, name),
    decreases g.len(),
{
    if g.len() > 0 {
        lemma_group_index_names(g.drop_last(), h.drop_last(), name);
    }
}

/// Grouping attributes by name gives one group per name: looking up the name of a group
/// finds that very group, and a group holds only attributes of its name.
pub proof fn lemma_group_by_name_distinct(attrs: Seq<Attribute>)
    ensures
        forall|k: int|
            0 <= k < group_by_name(attrs).len() ==> group_index(
                group_by_name(attrs),
                (#[trigger] group_by_name(attrs)[k]).0,
            ) == Some(k),
        forall|k: int, m: int|
            0 <= k < group_by_name(attrs).len() && 0 <= m < group_by_name(attrs)[k].1.len()
                ==> (#[trigger] group_by_name(attrs)[k].1[m]).name@ == group_by_name(attrs)[k].0,
    decreases attrs.len(),
{
    if attrs.len() > 0 {
        let h = group_by_name(attrs.drop_last());
        let a = attrs.last();
        let g = group_by_name(attrs);
        lemma_group_by_name_distinct(attrs.drop_last());
        lemma_group_index_in_range(h, a.name@);
        match group_index(h, a.name@) {
            Some(i) => {
                assert forall|k: int| 0 <= k < g.len() implies group_index(
                    g,
                    (#[trigger] g[k]).0,
                ) == Some(k) by {
                    lemma_group_index_names(g, h, g[k].0);
                    assert(g[k].0 == h[k].0);
                }
                assert forall|k: int, m: int|
                    0 <= k < g.len() && 0 <= m < g[k].1.len() implies (#[trigger] g[k].1[m]).name@
                    == g[k].0 by {
                    if k == i && m == h[k].1.len() {
                        assert(g[k].1[m] == a);
                    } else {
                        assert(g[k].1[m] == h[k].1[m]);
                    }
                }
            },
            None => {
                assert(g.drop_last() =~= h);
                assert forall|k: int| 0 <= k < g.len() implies group_index(
                    g,
                    (#[trigger] g[k]).0,
                ) == Some(k) by {
                    if k < h.len() {
                        assert(g[k] == h[k]);
                        assert(group_index(h, h[k].0) == Some(k));
                    }
                }
                assert forall|k: int, m: int|
                    0 <= k < g.len() && 0 <= m < g[k].1.len() implies (#[trigger] g[k].1[m]).name@
                    == g[k].0 by {
                    if k < h.len() {
                        assert(g[k] == h[k]);
                    }
                }
            },
        }
    }
}

/// A found merged entry is in range and has the name; a name that is not found is the name of
/// no merged entry.
proof fn lemma_merged_index_in_range(m: Seq<(Att, Seq<Val>)>, name: Seq<char>)
    ensures
        merged_index(m, name) matches Some(i) ==> 0 <= i < m.len() && m[i].0@ == name,
        merged_index(m, name) is None ==> forall|k: int| 0 <= k < m.len() ==> (#[trigger] m[k]).0@ != name,
    decreases m.len(),
{
    if m.len() > 0 {
        lemma_merged_index_in_range(m.drop_last(), name);
        if merged_index(m, name) is None {
            assert forall|k: int| 0 <= k < m.len() implies (#[trigger] m[k]).0@ != name by {
                if k < m.len() - 1 {
                    assert(m[k] == m.drop_last()[k]);
                }
            }
        }
    }
}

/// Looking a name up among merged entries depends on their names alone.
proof fn lemma_merged_index_names(m: Seq<(Att, Seq<Val>)>, n: Seq<(Att, Seq<Val>)>, name: Seq<char>)
    requires
        m.len() == n.len(),
        forall|k: int| 0 <= k < m.len() ==> (#[trigger] m[k]).0 == n[k].0,
    ensures
        merged_index(m, name) == merged_index(n, name),
    decreases m.len(),
{
    if m.len() > 0 {
        lemma_merged_index_names(m.drop_last(), n.drop_last(), name);
    }
}

/// Without an attribute of the name, there are no values of the name.
proof fn lemma_attr_vals_absent(attrs: Seq<Attribute>, name: Seq<char>)
    requires
        forall|k: int| 0 <= k < attrs.len() ==> (#[trigger] attrs[k]).name@ != name,
    ensures
        attr_vals(attrs, name) == Seq::<Val>::empty(),
    decreases attrs.len(),
{
    if attrs.len() > 0 {
        lemma_attr_vals_absent(attrs.drop_last(), name);
        assert(attr_vals(attrs, name) =~= Seq::<Val>::empty());
    }
}

/// Merging attributes by name gives one entry per name, an entry for every name of the
/// attributes, and in each entry all the values of the attributes of that name, in their order.
pub proof fn lemma_merge_by_name_values(attrs: Seq<Attribute>)
    ensures
        forall|i: int, k: int|
            0 <= i < k < merge_by_name(attrs).len() ==> (#[trigger] merge_by_name(attrs)[i]).0@
                != (#[trigger] merge_by_name(attrs)[k]).0@,
        forall|k: int|
            0 <= k < merge_by_name(attrs).len() ==> (#[trigger] merge_by_name(attrs)[k]).1
                == attr_vals(attrs, merge_by_name(attrs)[k].0@),
        forall|i: int|
            0 <= i < attrs.len() ==> merged_index(merge_by_name(attrs), (#[trigger] attrs[i]).name@) is Some,
    decreases attrs.len(),
{
    if attrs.len() > 0 {
        let d = attrs.drop_last();
        let a = attrs.last();
        let h = merge_by_name(d);
        let m = merge_by_name(attrs);
        lemma_merge_by_name_values(d);
        lemma_merged_index_in_range(h, a.name@);
        assert forall|i: int| 0 <= i < d.len() implies (#[trigger] attrs[i]) == d[i] by {}
        match merged_index(h, a.name@) {
            Some(j) => {
                assert forall|k: int| 0 <= k < m.len() implies (#[trigger] m[k]).0 == h[k].0 by {}
                assert forall|i: int, k: int| 0 <= i < k < m.len() implies (#[trigger] m[i]).0@
                    != (#[trigger] m[k]).0@ by {
                    assert(m[i].0 == h[i].0);
                    assert(m[k].0 == h[k].0);
                }
                assert forall|k: int| 0 <= k < m.len() implies (#[trigger] m[k]).1 == attr_vals(
                    attrs,
                    m[k].0@,
                ) by {
                    if k == j {
                        assert(attr_vals(attrs, m[k].0@) =~= attr_vals(d, m[k].0@) + a.value@);
                    } else {
                        assert(h[k].0@ != h[j].0@);
                        assert(attr_vals(attrs, m[k].0@) =~= attr_vals(d, m[k].0@));
                    }
                }
                assert forall|i: int| 0 <= i < attrs.len() implies merged_index(
                    m,
                    (#[trigger] attrs[i]).name@,
                ) is Some by {
                    lemma_merged_index_names(m, h, attrs[i].name@);
                    if i < d.len() {
                        assert(attrs[i] == d[i]);
                    }
                }
            },
            None => {
                assert(m.drop_last() =~= h);
                assert forall|i: int, k: int| 0 <= i < k < m.len() implies (#[trigger] m[i]).0@
                    != (#[trigger] m[k]).0@ by {
                    assert(m[i] == h[i]);
                    if k < h.len() {
                        assert(m[k] == h[k]);
                    }
                }
                assert forall|k: int| 0 <= k < d.len() implies (#[trigger] d[k]).name@ != a.name@ by {
                    assert(merged_index(h, d[k].name@) is Some);
                    lemma_merged_index_in_range(h, d[k].name@);
                }
                lemma_attr_vals_absent(d, a.name@);
                assert forall|k: int| 0 <= k < m.len() implies (#[trigger] m[k]).1 == attr_vals(
                    attrs,
                    m[k].0@,
                ) by {
                    if k < h.len() {
                        assert(m[k] == h[k]);
                        assert(attr_vals(attrs, m[k].0@) =~= attr_vals(d, m[k].0@));
                    } else {
                        assert(attr_vals(attrs, a.name@) =~= attr_vals(d, a.name@) + a.value@);
                    }
                }
                assert forall|i: int| 0 <= i < attrs.len() implies merged_index(
                    m,
                    (#[trigger] attrs[i]).name@,
                ) is Some by {
                    if i < d.len() {
                        assert(attrs[i] == d[i]);
                    }
                }
            },
        }
    }
}

/// When the entries hold, position by position, the names of the groups and their positions,
/// looking a name up in the entries finds the group of that name.
proof fn lemma_entry_position_group_index(
    e: Seq<(Seq<char>, usize)>,
    g: Seq<(Seq<char>, Seq<Attribute>)>,
    name: Seq<char>,
)
    requires
        e.len() == g.len(),
        forall|k: int| 0 <= k < e.len() ==> (#[trigger] e[k]).0 == g[k].0,
    ensures
        entry_position(e, name) == group_index(g, name),
    decreases e.len(),
{
    if e.len() > 0 {
        lemma_entry_position_group_index(e.drop_last(), g.drop_last(), name);
    }
}

/// When the entries hold, position by position, the names of the merged attributes, looking a
/// name up in the entries finds the merged attribute of that name.
proof fn lemma_entry_position_merged_index(
    e: Seq<(Seq<char>, usize)>,
    m: Seq<(Att, Seq<Val>)>,
    name: Seq<char>,
)
    requires
        e.len() == m.len(),
        forall|k: int| 0 <= k < e.len() ==> (#[trigger] e[k]).0 == m[k].0@,
    ensures
        entry_position(e, name) == merged_index(m, name),
    decreases e.len(),
{
    if e.len() > 0 {
        lemma_entry_position_merged_index(e.drop_last(), m.drop_last(), name);
    }
}

/// A found position is in range.
proof fn lemma_entry_position_in_range(e: Seq<(Seq<char>, usize)>, name: Seq<char>)
    ensures
        entry_position(e, name) matches Some(i) ==> 0 <= i < e.len() && e[i].0 == name,
    decreases e.len(),
{
    if e.len() > 0 {
        lemma_entry_position_in_range(e.drop_last(), name);
    }
}

/// group attributes of the same name
pub fn group_attributes_per_name<'a>(attributes: &'a [Attribute]) -> (r: Vec<
    (&'a Att, Vec<&'a Attribute>),
>)
    ensures
        groups_view(r@) == group_by_name(attributes@),
{
    let mut index = name_index_new();
    let mut groups: Vec<(&'a Att, Vec<&'a Attribute>)> = Vec::new();
    let mut i: usize = 0;
    while i < attributes.len()
        invariant
            i <= attributes@.len(),
            groups_view(groups@) == group_by_name(attributes@.take(i as int)),
            name_index_entries(index).len() == groups@.len(),
            forall|k: int|
                0 <= k < groups@.len() ==> (#[trigger] name_index_entries(index)[k]) == (
                groups_view(groups@)[k].0,
                k as usize,
            ),
        decreases attributes@.len() - i,
    {
        let a: &'a Attribute = &attributes[i];
        let glen = groups.len();
        let ghost gv = groups_view(groups@);
        let ghost e = name_index_entries(index);
        proof {
            lemma_entry_position_group_index(e, gv, a.name@);
            lemma_entry_position_in_range(e, a.name@);
            if entry_position(e, a.name@) is Some {
                let pos = entry_position(e, a.name@)->0;
                assert(e[pos] == (gv[pos].0, pos as usize));
            }
            assert(attributes@.take(i + 1).drop_last() =~= attributes@.take(i as int));
            assert(attributes@.take(i + 1).last() == *a);
        }
        match name_index_get(&index, a.name) {
            Some(gi) => {
                let mut members: Vec<&'a Attribute> = Vec::new();
                std::mem::swap(&mut members, &mut groups[gi].1);
                members.push(a);
                std::mem::swap(&mut members, &mut groups[gi].1);
                proof {
                    let f = |x: &Attribute| *x;
                    assert(group_index(gv, a.name@) == Some(gi as int));
                    assert(groups@[gi as int].1@.map_values(f) =~= gv[gi as int].1.push(*a));
                    assert(groups_view(groups@) =~~= gv.update(
                        gi as int,
                        (gv[gi as int].0, gv[gi as int].1.push(*a)),
                    ));
                }
            },
            None => {
                name_index_insert(&mut index, a.name, groups.len());
                let mut members: Vec<&'a Attribute> = Vec::new();
                members.push(a);
                groups.push((&a.name, members));
                proof {
                    let f = |x: &Attribute| *x;
                    assert(groups@.last().1@.map_values(f) =~= seq![*a]);
                    assert(groups_view(groups@) =~~= gv.push((a.name@, seq![*a])));
                }
            },
        }
        i += 1;
    }
    assert(attributes@.take(attributes@.len() as int) =~= attributes@);
    groups
}

/// merge the values of attributes with the same name
pub fn merge_attributes_of_same_name(attributes: &[&Attribute]) -> (r: Vec<Attribute>)
    ensures
        r@.len() == merge_by_name(attributes@.map_values(|a: &Attribute| *a)).len(),
        forall|k: int|
            0 <= k < r@.len() ==> {
                let m = merge_by_name(attributes@.map_values(|a: &Attribute| *a));
                &&& (#[trigger] r@[k]).namespace.is_none()
                &&& r@[k].name == m[k].0
                &&& r@[k].value@ == m[k].1
            },
{
    let ghost all = attributes@.map_values(|a: &Attribute| *a);
    let mut index = name_index_new();
    let mut merged: Vec<Attribute> = Vec::new();
    let mut i: usize = 0;
    while i < attributes.len()
        invariant
            i <= attributes@.len(),
            all == attributes@.map_values(|a: &Attribute| *a),
            merged@.len() == merge_by_name(all.take(i as int)).len(),
            forall|k: int|
                0 <= k < merged@.len() ==> {
                    let m = merge_by_name(all.take(i as int));
                    &&& (#[trigger] merged@[k]).namespace.is_none()
                    &&& merged@[k].name == m[k].0
                    &&& merged@[k].value@ == m[k].1
                },
            name_index_entries(index).len() == merged@.len(),
            forall|k: int|
                0 <= k < merged@.len() ==> (#[trigger] name_index_entries(index)[k]) == (
                merged@[k].name@,
                k as usize,
            ),
        decreases attributes@.len() - i,
    {
        let a: &Attribute = attributes[i];
        let mlen = merged.len();
        let ghost m = merge_by_name(all.take(i as int));
        let ghost e = name_index_entries(index);
        proof {
            lemma_entry_position_merged_index(e, m, a.name@);
            lemma_entry_position_in_range(e, a.name@);
            if entry_position(e, a.name@) is Some {
                let pos = entry_position(e, a.name@)->0;
                assert(e[pos] == (merged@[pos].name@, pos as usize));
            }
            assert(all.take(i + 1).drop_last() =~= all.take(i as int));
            assert(all[i as int] == *a);
            assert(all.take(i + 1).last() == *a);
        }
        let mut values = a.value.clone();
        proof {
            assert forall|j: int| 0 <= j < values@.len() implies values@[j] == a.value@[j] by {
                assert(vstd::pervasive::cloned::<String>(a.value@[j], values@[j]));
            }
            assert(values@ =~= a.value@);
        }
        match name_index_get(&index, a.name) {
            Some(gi) => {
                let ghost before = merged@[gi as int].value@;
                merged[gi].value.append(&mut values);
                proof {
                    assert(merged@[gi as int].value@ =~= before + a.value@);
                    let m2 = merge_by_name(all.take(i + 1));
                    assert(merged_index(m, a.name@) == Some(gi as int));
                    assert(m2 == m.update(gi as int, (m[gi as int].0, m[gi as int].1 + a.value@)));
                    assert forall|k: int| 0 <= k < merged@.len() implies {
                        &&& (#[trigger] merged@[k]).namespace.is_none()
                        &&& merged@[k].name == m2[k].0
                        &&& merged@[k].value@ == m2[k].1
                    } by {}
                }
            },
            None => {
                name_index_insert(&mut index, a.name, merged.len());
                merged.push(Attribute { namespace: None, name: a.name, value: values });
                proof {
                    let m2 = merge_by_name(all.take(i + 1));
                    assert(m2 == m.push((a.name, a.value@)));
                    assert forall|k: int| 0 <= k < merged@.len() implies {
                        &&& (#[trigger] merged@[k]).namespace.is_none()
                        &&& merged@[k].name == m2[k].0
                        &&& merged@[k].value@ == m2[k].1
                    } by {}
                }
            },
        }
        proof {
            let m2 = merge_by_name(all.take(i + 1));
            assert(merged@.len() == m2.len());
        }
        i += 1;
    }
    assert(all.take(attributes@.len() as int) =~= all);
    merged
}

/// Declares the ordered map of the `indexmap` crate.
#[verifier::external_type_specification]
#[verifier::external_body]
#[verifier::reject_recursive_types(K)]
#[verifier::reject_recursive_types(V)]
#[verifier::reject_recursive_types(S)]
pub struct ExIndexMap<K, V, S>(IndexMap<K, V, S>);

/// The entries of a map from names to positions, in the map's order, each name taken by its
/// characters.
pub uninterp spec fn name_index_entries(m: IndexMap<&'static str, usize>) -> Seq<(Seq<char>, usize)>;

/// The position of the first entry whose name is `name`, if any.
pub open spec fn entry_position(e: Seq<(Seq<char>, usize)>, name: Seq<char>) -> Option<int>
    decreases e.len(),
{
    if e.len() == 0 {
        None
    } else {
        match entry_position(e.drop_last(), name) {
            Some(i) => Some(i),
            None => if e.last().0 == name {
                Some(e.len() - 1)
            } else {
                None
            },
        }
    }
}

/// `IndexMap::new`: an empty map, which holds no entry.
#[verifier::external_body]
fn name_index_new() -> (m: IndexMap<&'static str, usize>)
    ensures
        name_index_entries(m) == Seq::<(Seq<char>, usize)>::empty(),
{
    IndexMap::new()
}

/// `IndexMap::get`: the value of the entry whose key equals `name` (string keys are equal when
/// their characters are), if there is one.
#[verifier::external_body]
fn name_index_get(m: &IndexMap<&'static str, usize>, name: &'static str) -> (r: Option<usize>)
    ensures
        r == (match entry_position(name_index_entries(*m), name@) {
            Some(i) => Some(name_index_entries(*m)[i].1),
            None => None,
        }),
{
    m.get(&name).copied()
}

/// `IndexMap::insert`: when an entry with an equal key exists, its value is replaced and it keeps
/// its place; otherwise the new entry goes last.
#[verifier::external_body]
fn name_index_insert(m: &mut IndexMap<&'static str, usize>, name: &'static str, v: usize)
    ensures
        name_index_entries(*final(m)) == (match entry_position(name_index_entries(*old(m)), name@) {
            Some(i) => name_index_entries(*old(m)).update(i, (name@, v)),
            None => name_index_entries(*old(m)).push((name@, v)),
        }),
{
    m.insert(name, v);
}

} // verus!

//! Reconciliation of keyed elements by two passes: the children with the same key first, in
//! forward order, then the children at the same position among those left.
use super::keyed::{find_matched_old, opt_int};
use super::laws::lemma_first_match_in_range;
use super::{
    attribute_patches, copy_path, create_attribute_patches, decision, try_diff_recursive,
    lemma_patches_view_add, matched_old, opt_concat, remove_patch, spec_diff, well_behaved,
};
use crate::node::attribute::{Att, Tag};
use crate::node::{Element, Node};
use crate::patch::{nodes_of, patches_view, Patch, PatchModel, TreePath};
use vstd::prelude::*;

verus! {

/// The keyed matching of the new children from position `j` on, given the last matched old
/// position: for each, the first later old child with its key, if any.
pub open spec fn key_matches(
    olds: Seq<Node>,
    news: Seq<Node>,
    key: Seq<char>,
    j: int,
    last: Option<int>,
) -> Seq<Option<int>>
    decreases news.len() - j,
{
    if j < 0 || j >= news.len() {
        Seq::empty()
    } else {
        let m = matched_old(olds, news, key, last, j);
        seq![m] + key_matches(
            olds,
            news,
            key,
            j + 1,
            if m is Some {
                m
            } else {
                last
            },
        )
    }
}

/// The first new position from `j` on that the keyed matching gives the old position `i`.
pub open spec fn keyed_new_of(nk: Seq<Option<int>>, i: int, j: int) -> Option<int>
    decreases nk.len() - j,
{
    if j < 0 || j >= nk.len() {
        None
    } else if nk[j] == Some(i) {
        Some(j)
    } else {
        keyed_new_of(nk, i, j + 1)
    }
}

/// The new position matched to the old position `i`: by key, or else by position when neither
/// child there is matched by key.
pub open spec fn new_of(nk: Seq<Option<int>>, olds_len: int, i: int) -> Option<int> {
    match keyed_new_of(nk, i, 0) {
        Some(j) => Some(j),
        None => if i < nk.len() && nk[i] is None {
            Some(i)
        } else {
            None
        },
    }
}

/// Whether the new child at `j` is matched neither by key nor by position.
pub open spec fn left_over(nk: Seq<Option<int>>, olds_len: int, j: int) -> bool {
    nk[j] is None && !(j < olds_len && keyed_new_of(nk, j, 0) is None)
}

/// The insertions at `p`, one patch each, of the left over new children from `u` to `n`,
/// excluded.
pub open spec fn insert_run(
    news: Seq<Node>,
    nk: Seq<Option<int>>,
    olds_len: int,
    tag: Tag,
    p: Seq<usize>,
    u: int,
    n: int,
) -> Seq<PatchModel>
    decreases n - u,
{
    if u >= n {
        Seq::empty()
    } else {
        (if left_over(nk, olds_len, u) {
            seq![PatchModel::InsertBeforeNode { tag: Some(tag), patch_path: p, nodes: seq![news[u]] }]
        } else {
            Seq::empty()
        }) + insert_run(news, nk, olds_len, tag, p, u + 1, n)
    }
}

/// The diffs of the old children from `i` on with the new children matched to them.
pub open spec fn walk_diffs(
    olds: Seq<Node>,
    news: Seq<Node>,
    nk: Seq<Option<int>>,
    path: Seq<usize>,
    key: Seq<char>,
    sk: spec_fn(Node, Node) -> bool,
    rp: spec_fn(Node, Node) -> bool,
    i: int,
) -> Option<Seq<PatchModel>>
    decreases olds.len() - i,
{
    if i < 0 || i >= olds.len() {
        Some(Seq::empty())
    } else {
        opt_concat(
            match new_of(nk, olds.len() as int, i) {
                Some(n) => if 0 <= n < news.len() {
                    spec_diff(olds[i], news[n], path.push(i as usize), key, sk, rp)
                } else {
                    None
                },
                None => Some(Seq::empty()),
            },
            walk_diffs(olds, news, nk, path, key, sk, rp, i + 1),
        )
    }
}

/// The insertions before the old children from `i` on of the left over new children that come
/// before the new child matched to each, `pm` being the end of those already inserted.
pub open spec fn walk_inserts(
    olds: Seq<Node>,
    news: Seq<Node>,
    nk: Seq<Option<int>>,
    tag: Tag,
    path: Seq<usize>,
    i: int,
    pm: int,
) -> Seq<PatchModel>
    decreases olds.len() - i,
{
    if i < 0 || i >= olds.len() {
        Seq::empty()
    } else {
        match new_of(nk, olds.len() as int, i) {
            Some(n) => insert_run(news, nk, olds.len() as int, tag, path.push(i as usize), pm, n)
                + walk_inserts(
                olds,
                news,
                nk,
                tag,
                path,
                i + 1,
                if n > pm {
                    n
                } else {
                    pm
                },
            ),
            None => walk_inserts(olds, news, nk, tag, path, i + 1, pm),
        }
    }
}

/// The end of the left over new children inserted once the old children from `i` on are
/// walked.
pub open spec fn walk_end(olds_len: int, nk: Seq<Option<int>>, i: int, pm: int) -> int
    decreases olds_len - i,
{
    if i < 0 || i >= olds_len {
        pm
    } else {
        match new_of(nk, olds_len, i) {
            Some(n) => walk_end(
                olds_len,
                nk,
                i + 1,
                if n > pm {
                    n
                } else {
                    pm
                },
            ),
            None => walk_end(olds_len, nk, i + 1, pm),
        }
    }
}

/// The removals of the old children from `i` on that no new child is matched to.
pub open spec fn walk_removes(olds: Seq<Node>, nk: Seq<Option<int>>, path: Seq<usize>, i: int) -> Seq<
    PatchModel,
>
    decreases olds.len() - i,
{
    if i < 0 || i >= olds.len() {
        Seq::empty()
    } else {
        (if new_of(nk, olds.len() as int, i) is None {
            seq![remove_patch(olds[i], path.push(i as usize))]
        } else {
            Seq::empty()
        }) + walk_removes(olds, nk, path, i + 1)
    }
}

/// The appending, one patch each, of the left over new children from `u` on.
pub open spec fn appends(
    news: Seq<Node>,
    nk: Seq<Option<int>>,
    olds_len: int,
    tag: Tag,
    path: Seq<usize>,
    u: int,
) -> Seq<PatchModel>
    decreases news.len() - u,
{
    if u < 0 || u >= news.len() {
        Seq::empty()
    } else {
        (if left_over(nk, olds_len, u) {
            seq![PatchModel::AppendChildren { tag, patch_path: path, children: seq![news[u]] }]
        } else {
            Seq::empty()
        }) + appends(news, nk, olds_len, tag, path, u + 1)
    }
}

/// The patches of the reconciliation of two elements: the attribute patches, the diffs of the
/// matched children, the insertions of the left over new children before the old children they
/// precede, the appending of the other left over new children, and the removal of the old
/// children that nothing matches.
pub open spec fn reconcile(
    old: Element,
    new: Element,
    path: Seq<usize>,
    key: Seq<char>,
    sk: spec_fn(Node, Node) -> bool,
    rp: spec_fn(Node, Node) -> bool,
) -> Option<Seq<PatchModel>> {
    let olds = old.children@;
    let news = new.children@;
    let nk = key_matches(olds, news, key, 0, None);
    let n = olds.len() as int;
    opt_concat(
        Some(attribute_patches(old, new, path)),
        opt_concat(
            walk_diffs(olds, news, nk, path, key, sk, rp, 0),
            Some(
                walk_inserts(olds, news, nk, old.tag, path, 0, 0) + appends(
                    news,
                    nk,
                    n,
                    old.tag,
                    path,
                    walk_end(n, nk, 0, 0),
                ) + walk_removes(olds, nk, path, 0),
            ),
        ),
    )
}

/// The positions held by optional machine positions.
pub open spec fn opt_ints(s: Seq<Option<usize>>) -> Seq<Option<int>> {
    s.map_values(|o: Option<usize>| opt_int(o))
}

/// Copies a sequence of indices into a path.
fn path_of(s: &[usize]) -> (r: TreePath)
    ensures
        r@ == s@,
{
    let mut v: Vec<usize> = Vec::new();
    let mut i: usize = 0;
    while i < s.len()
        invariant
            i <= s@.len(),
            v@ == s@.take(i as int),
        decreases s@.len() - i,
    {
        v.push(s[i]);
        assert(v@ =~= s@.take(i + 1));
        i += 1;
    }
    assert(s@.take(s@.len() as int) =~= s@);
    TreePath::new(v)
}

/// Matches each new child by key to the first later old child with its key.
fn build_key_matches(olds: &Vec<Node>, news: &Vec<Node>, key: &Att) -> (r: Vec<Option<usize>>)
    ensures
        opt_ints(r@) == key_matches(olds@, news@, (*key)@, 0, None),
        r@.len() == news@.len(),
        forall|j: int| 0 <= j < r@.len() ==> ((#[trigger] r@[j]) matches Some(i) ==> i < olds@.len()),
{
    let ghost full = key_matches(olds@, news@, (*key)@, 0, None);
    let old_key_index = crate::diff::build_keys_by_position(olds, 0, olds.len(), key);
    let mut nk: Vec<Option<usize>> = Vec::new();
    let mut last: Option<usize> = None;
    let mut j: usize = 0;
    while j < news.len()
        invariant
            j <= news@.len(),
            crate::diff::keys_by_position(old_key_index@, olds@, 0, olds@.len() as int, (*key)@),
            nk@.len() == j,
            opt_ints(nk@) + key_matches(olds@, news@, (*key)@, j as int, opt_int(last)) == full,
            forall|k: int| 0 <= k < nk@.len() ==> ((#[trigger] nk@[k]) matches Some(i) ==> i < olds@.len()),
        decreases news@.len() - j,
    {
        let m = find_matched_old(&old_key_index, olds, news, key, last, j);
        proof {
            if let Some(nkey) = crate::diff::key_of(news@[j as int], (*key)@) {
                lemma_first_match_in_range(olds@, (*key)@, nkey, opt_int(last), 0);
            }
            let ghost rest = key_matches(olds@, news@, (*key)@, j + 1, opt_int(if m is Some { m } else { last }));
            assert(key_matches(olds@, news@, (*key)@, j as int, opt_int(last)) == seq![opt_int(m)] + rest);
            assert(opt_ints(nk@.push(m)) =~= opt_ints(nk@).push(opt_int(m)));
            assert(opt_ints(nk@) + (seq![opt_int(m)] + rest) =~= opt_ints(nk@).push(opt_int(m)) + rest);
        }
        nk.push(m);
        if m.is_some() {
            last = m;
        }
        j += 1;
    }
    assert(opt_ints(nk@) + Seq::<Option<int>>::empty() =~= opt_ints(nk@));
    nk
}

/// For each old child, the first new child that the keyed matching gives it, if any.
fn build_keyed_new(nk: &Vec<Option<usize>>, olds_len: usize) -> (r: Vec<Option<usize>>)
    ensures
        r@.len() == olds_len,
        forall|i: int| 0 <= i < olds_len ==> opt_int(#[trigger] r@[i]) == keyed_new_of(opt_ints(nk@), i, 0),
{
    let ghost nki = opt_ints(nk@);
    let mut ok: Vec<Option<usize>> = Vec::new();
    let mut i: usize = 0;
    while i < olds_len
        invariant
            i <= olds_len,
            nki == opt_ints(nk@),
            ok@.len() == i,
            forall|k: int| 0 <= k < i ==> opt_int(#[trigger] ok@[k]) == keyed_new_of(nki, k, 0),
        decreases olds_len - i,
    {
        let mut j: usize = 0;
        while j < nk.len() && nk[j] != Some(i)
            invariant
                i < olds_len,
                nki == opt_ints(nk@),
                j <= nk@.len(),
                keyed_new_of(nki, i as int, 0) == keyed_new_of(nki, i as int, j as int),
            decreases nk@.len() - j,
        {
            assert(nki[j as int] == opt_int(nk@[j as int]));
            j += 1;
        }
        if j < nk.len() {
            assert(nki[j as int] == Some(i as int));
            ok.push(Some(j));
        } else {
            ok.push(None);
        }
        i += 1;
    }
    ok
}

/// Appending two known parts in turn is appending both at once.
pub(crate) proof fn lemma_opt_concat_assoc(a: Seq<PatchModel>, b: Seq<PatchModel>, w: Option<Seq<PatchModel>>)
    ensures
        opt_concat(Some(a), opt_concat(Some(b), w)) == opt_concat(Some(a + b), w),
{
    if let Some(x) = w {
        assert(a + (b + x) =~= (a + b) + x);
    }
}

/// Reconciliation of keyed elements
///
/// algorithm:
///
/// Phase1
///   - prioritize matching elements that has the same key.
///   - match non-keyed elements according to their node_idx alignment
///
/// Phase2
///   - old child elements that are not matched will be removed
///   - new child elements that are not matched will be inserted or appended
///     - inserted if the child node_idx <= old elements children
///     - appended if the child node_idx is > old elements children
pub fn diff_keyed_elements<'a, Skip: Fn(&Node, &Node) -> bool, Rep: Fn(&Node, &Node) -> bool>(
    old_element: &'a Element,
    new_element: &'a Element,
    key: &Att,
    path: &[usize],
    skip: &Skip,
    rep: &Rep,
) -> (r: Vec<Patch<'a>>)
    requires
        well_behaved(*skip),
        well_behaved(*rep),
        reconcile(*old_element, *new_element, path@, (*key)@, decision(*skip), decision(*rep)) is Some,
    ensures
        patches_view(r@) == reconcile(
            *old_element,
            *new_element,
            path@,
            (*key)@,
            decision(*skip),
            decision(*rep),
        )->0,
{
    try_diff_keyed_elements(old_element, new_element, key, path, skip, rep).unwrap()
}

/// The reconciliation of `diff_keyed_elements`, or `None` on the children on which diffing a
/// matched pair of them panics.
#[verifier::rlimit(40)]
pub fn try_diff_keyed_elements<
    'a,
    Skip: Fn(&Node, &Node) -> bool,
    Rep: Fn(&Node, &Node) -> bool,
>(
    old_element: &'a Element,
    new_element: &'a Element,
    key: &Att,
    path: &[usize],
    skip: &Skip,
    rep: &Rep,
) -> (r: Option<Vec<Patch<'a>>>)
    requires
        well_behaved(*skip),
        well_behaved(*rep),
    ensures
        ({
            let d = reconcile(
                *old_element,
                *new_element,
                path@,
                (*key)@,
                decision(*skip),
                decision(*rep),
            );
            &&& r is Some <==> d is Some
            &&& r matches Some(v) ==> patches_view(v@) == d->0
        }),
{
    let ghost sk = decision(*skip);
    let ghost rp = decision(*rep);
    let olds = &old_element.children;
    let news = &new_element.children;
    let ghost ol = olds@.len() as int;
    let ghost tag = old_element.tag;
    let nk = build_key_matches(olds, news, key);
    let ok = build_keyed_new(&nk, olds.len());
    let ghost nki = opt_ints(nk@);
    let mut left: Vec<bool> = Vec::new();
    let mut j: usize = 0;
    while j < news.len()
        invariant
            nki == opt_ints(nk@),
            nk@.len() == news@.len(),
            ok@.len() == olds@.len(),
            ol == olds@.len(),
            forall|k: int| 0 <= k < ol ==> opt_int(#[trigger] ok@[k]) == keyed_new_of(nki, k, 0),
            j <= news@.len(),
            left@.len() == j,
            forall|k: int| 0 <= k < j ==> (#[trigger] left@[k]) == left_over(nki, ol, k),
        decreases news@.len() - j,
    {
        let b = nk[j].is_none() && !(j < olds.len() && ok[j].is_none());
        proof {
            assert(nki[j as int] == opt_int(nk@[j as int]));
            if j < olds.len() {
                assert(opt_int(ok@[j as int]) == keyed_new_of(nki, j as int, 0));
            }
        }
        left.push(b);
        j += 1;
    }
    let tree_path = path_of(path);
    let ghost total = reconcile(*old_element, *new_element, path@, (*key)@, sk, rp);
    let ghost wd = walk_diffs(olds@, news@, nki, path@, (*key)@, sk, rp, 0);
    let ghost wi = walk_inserts(olds@, news@, nki, tag, path@, 0, 0);
    let ghost we = walk_end(ol, nki, 0, 0);
    let ghost wr = walk_removes(olds@, nki, path@, 0);
    let mut matched: Vec<Patch<'a>> = Vec::new();
    let mut inserts: Vec<Patch<'a>> = Vec::new();
    let mut removes: Vec<Patch<'a>> = Vec::new();
    let mut pm: usize = 0;
    let mut i: usize = 0;
    assert(wd is None ==> total is None);
    assert(opt_concat(Some(patches_view(matched@)), wd) == wd) by {
        assert(Seq::<PatchModel>::empty() + wd->0 =~= wd->0);
    }
    assert(patches_view(inserts@) + wi =~= wi);
    assert(patches_view(removes@) + wr =~= wr);
    while i < olds.len()
        invariant
            well_behaved(*skip),
            well_behaved(*rep),
            sk == decision(*skip),
            rp == decision(*rep),
            olds == &old_element.children,
            news == &new_element.children,
            tag == old_element.tag,
            nki == opt_ints(nk@),
            nk@.len() == news@.len(),
            ok@.len() == olds@.len(),
            ol == olds@.len(),
            forall|k: int| 0 <= k < ol ==> opt_int(#[trigger] ok@[k]) == keyed_new_of(nki, k, 0),
            forall|k: int| 0 <= k < nk@.len() ==> ((#[trigger] nk@[k]) matches Some(x) ==> x < olds@.len()),
            left@.len() == news@.len(),
            forall|k: int| 0 <= k < news@.len() ==> (#[trigger] left@[k]) == left_over(nki, ol, k),
            tree_path@ == path@,
            i <= olds@.len(),
            pm <= news@.len(),
            wd == walk_diffs(olds@, news@, nki, path@, (*key)@, sk, rp, 0),
            wd is None ==> total is None,
            total == reconcile(*old_element, *new_element, path@, (*key)@, sk, rp),
            wi == walk_inserts(olds@, news@, nki, tag, path@, 0, 0),
            we == walk_end(ol, nki, 0, 0),
            wr == walk_removes(olds@, nki, path@, 0),
            opt_concat(Some(patches_view(matched@)), walk_diffs(olds@, news@, nki, path@, (*key)@, sk, rp, i as int)) == wd,
            patches_view(inserts@) + walk_inserts(olds@, news@, nki, tag, path@, i as int, pm as int) == wi,
            walk_end(ol, nki, i as int, pm as int) == we,
            patches_view(removes@) + walk_removes(olds@, nki, path@, i as int) == wr,
        decreases olds@.len() - i,
    {
        let child_path = tree_path.traverse(i);
        let n_opt = match ok[i] {
            Some(k) => Some(k),
            None => if i < news.len() && nk[i].is_none() {
                Some(i)
            } else {
                None
            },
        };
        proof {
            assert(opt_int(ok@[i as int]) == keyed_new_of(nki, i as int, 0));
            if i < news.len() {
                assert(nki[i as int] == opt_int(nk@[i as int]));
            }
            assert(opt_int(n_opt) == new_of(nki, ol, i as int));
            if let Some(x) = ok@[i as int] {
                let kj = keyed_new_of(nki, i as int, 0);
                lemma_keyed_new_of_range(nki, i as int, 0);
            }
        }
        match n_opt {
            Some(n) => {
                let ghost ins0 = patches_view(inserts@);
                let mut u: usize = pm;
                let ghost run = insert_run(news@, nki, ol, tag, path@.push(i), pm as int, n as int);
                assert(patches_view(inserts@) + run =~= ins0 + run);
                while u < n
                    invariant
                        olds == &old_element.children,
                        news == &new_element.children,
                        tag == old_element.tag,
                        left@.len() == news@.len(),
                        forall|k: int| 0 <= k < news@.len() ==> (#[trigger] left@[k]) == left_over(nki, ol, k),
                        child_path@ == path@.push(i),
                        n < news@.len(),
                        pm <= u <= n || n < pm,
                        pm > n ==> u == pm,
                        run == insert_run(news@, nki, ol, tag, path@.push(i), pm as int, n as int),
                        patches_view(inserts@) + insert_run(news@, nki, ol, tag, path@.push(i), u as int, n as int) == ins0 + run,
                    decreases n - u,
                {
                    let ghost before = patches_view(inserts@);
                    let ghost rest = insert_run(news@, nki, ol, tag, path@.push(i), u + 1, n as int);
                    if left[u] {
                        inserts.push(Patch::insert_node(Some(&old_element.tag), copy_path(&child_path), &news[u]));
                        assert(patches_view(inserts@) =~= before + seq![
                            PatchModel::InsertBeforeNode {
                                tag: Some(tag),
                                patch_path: path@.push(i),
                                nodes: seq![news@[u as int]],
                            },
                        ]);
                    }
                    assert(patches_view(inserts@) + rest =~= before + insert_run(news@, nki, ol, tag, path@.push(i), u as int, n as int));
                    u += 1;
                }
                proof {
                    assert(insert_run(news@, nki, ol, tag, path@.push(i), u as int, n as int) =~= Seq::<PatchModel>::empty());
                    assert(patches_view(inserts@) =~= ins0 + run);
                    let nm = if n > pm { n as int } else { pm as int };
                    assert(walk_inserts(olds@, news@, nki, tag, path@, i as int, pm as int) == run + walk_inserts(olds@, news@, nki, tag, path@, i + 1, nm));
                    assert(patches_view(inserts@) + walk_inserts(olds@, news@, nki, tag, path@, i + 1, nm) =~= ins0 + walk_inserts(olds@, news@, nki, tag, path@, i as int, pm as int));
                }
                if n > pm {
                    pm = n;
                }
                let ghost this = spec_diff(olds@[i as int], news@[n as int], path@.push(i), (*key)@, sk, rp);
                proof {
                    let w1 = walk_diffs(olds@, news@, nki, path@, (*key)@, sk, rp, i + 1);
                    assert(walk_diffs(olds@, news@, nki, path@, (*key)@, sk, rp, i as int) == opt_concat(this, w1));
                }
                let ghost before = matched@;
                let mut more = match try_diff_recursive(&olds[i], &news[n], &child_path, key, skip, rep) {
                    Some(v) => v,
                    None => {
                        proof {
                            assert(this is None);
                            assert(walk_diffs(olds@, news@, nki, path@, (*key)@, sk, rp, i as int) is None);
                            assert(wd is None);
                            assert(total is None);
                        }
                        return None;
                    },
                };
                let ghost added = more@;
                matched.append(&mut more);
                proof {
                    lemma_patches_view_add(before, added);
                    lemma_opt_concat_assoc(patches_view(before), patches_view(added), walk_diffs(olds@, news@, nki, path@, (*key)@, sk, rp, i + 1));
                }
            },
            None => {
                let ghost before = patches_view(removes@);
                removes.push(Patch::remove_node(olds[i].tag(), child_path));
                proof {
                    assert(patches_view(removes@) =~= before + seq![remove_patch(olds@[i as int], path@.push(i))]);
                    assert(patches_view(removes@) + walk_removes(olds@, nki, path@, i + 1) =~= before + walk_removes(olds@, nki, path@, i as int));
                    let w1 = walk_diffs(olds@, news@, nki, path@, (*key)@, sk, rp, i + 1);
                    assert(walk_diffs(olds@, news@, nki, path@, (*key)@, sk, rp, i as int) == opt_concat(Some(Seq::<PatchModel>::empty()), w1));
                    lemma_opt_concat_assoc(patches_view(matched@), Seq::<PatchModel>::empty(), w1);
                    assert(patches_view(matched@) + Seq::<PatchModel>::empty() =~= patches_view(matched@));
                }
            },
        }
        i += 1;
    }
    proof {
        assert(patches_view(inserts@) =~= wi);
        assert(patches_view(removes@) =~= wr);
        assert(patches_view(matched@) == wd->0) by {
            assert(patches_view(matched@) + Seq::<PatchModel>::empty() =~= patches_view(matched@));
        }
    }
    let ghost ap = appends(news@, nki, ol, tag, path@, we);
    let mut appended: Vec<Patch<'a>> = Vec::new();
    let mut u: usize = pm;
    assert(patches_view(appended@) + appends(news@, nki, ol, tag, path@, u as int) =~= ap);
    while u < news.len()
        invariant
            news == &new_element.children,
            tag == old_element.tag,
            left@.len() == news@.len(),
            forall|k: int| 0 <= k < news@.len() ==> (#[trigger] left@[k]) == left_over(nki, ol, k),
            tree_path@ == path@,
            u <= news@.len(),
            ap == appends(news@, nki, ol, tag, path@, we),
            patches_view(appended@) + appends(news@, nki, ol, tag, path@, u as int) == ap,
        decreases news@.len() - u,
    {
        let ghost before = patches_view(appended@);
        if left[u] {
            let mut one: Vec<&'a Node> = Vec::new();
            one.push(&news[u]);
            assert(nodes_of(one@) =~= seq![news@[u as int]]);
            appended.push(Patch::append_children(&old_element.tag, copy_path(&tree_path), one));
            assert(patches_view(appended@) =~= before + seq![
                PatchModel::AppendChildren {
                    tag,
                    patch_path: path@,
                    children: seq![news@[u as int]],
                },
            ]);
        }
        assert(patches_view(appended@) + appends(news@, nki, ol, tag, path@, u + 1) =~= before + appends(news@, nki, ol, tag, path@, u as int));
        u += 1;
    }
    assert(patches_view(appended@) =~= ap);
    let mut patches = create_attribute_patches(old_element, new_element, &tree_path);
    let ghost at = patches_view(patches@);
    patches.append(&mut matched);
    patches.append(&mut inserts);
    patches.append(&mut appended);
    patches.append(&mut removes);
    assert(patches_view(patches@) =~= at + (wd->0 + (wi + ap + wr)));
    Some(patches)
}

/// A found new position is in range.
proof fn lemma_keyed_new_of_range(nk: Seq<Option<int>>, i: int, j: int)
    ensures
        keyed_new_of(nk, i, j) matches Some(x) ==> 0 <= x < nk.len(),
    decreases nk.len() - j,
{
    if 0 <= j < nk.len() && nk[j] != Some(i) {
        lemma_keyed_new_of_range(nk, i, j + 1);
    }
}

} // verus!

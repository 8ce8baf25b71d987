//! Diffing of the children of elements when some of them are keyed.
//!
//! The new children are walked in order; each keyed one is matched to the first old child
//! with the same key that comes after the last matched old child. The old children skipped
//! over are removed, and the new children skipped over are inserted before the matched old
//! child. What is left after the last match is removed, or inserted after it.
use super::{
    after, after_position, build_keys_by_position, copy_path, decision, opt_concat, try_diff_recursive,
    first_entry_with_key, first_match_from, has_match, is_fwd, key_of, keyed_diff, keyed_loop,
    keyed_step, keyed_tail, keys_by_position, lemma_patches_view_add, lemma_removes_range_push,
    matched_old, node_key, node_refs, remove_patch, removes_range, well_behaved,
};
use super::keyed_elements::lemma_opt_concat_assoc;
use crate::node::attribute::{Att, Val};
use crate::node::{Element, Node};
use crate::patch::{patches_view, Patch, PatchModel, TreePath};
use crate::text::strs_view;
use std::collections::BTreeMap;
use vstd::prelude::*;
use vstd::std_specs::btree::{axiom_spec_btree_map_iter, spec_btree_map_iter};
use vstd::std_specs::iter::IteratorSpec;

verus! {

/// An optional position as an integer.
pub open spec fn opt_int(o: Option<usize>) -> Option<int> {
    match o {
        Some(x) => Some(x as int),
        None => None,
    }
}

/// check if index is greater than the contained value of an index
/// returns true if `than` is None
pub fn is_forward(than: Option<usize>, i: usize) -> (r: bool)
    ensures
        r == is_fwd(opt_int(than), i as int),
{
    match than {
        None => true,
        Some(than) => i > than,
    }
}

/// A found match is a later old child with the key.
proof fn lemma_first_match_from(
    olds: Seq<Node>,
    key: Seq<char>,
    nk: Seq<Seq<char>>,
    last_old: Option<int>,
    k: int,
)
    requires
        0 <= k,
    ensures
        first_match_from(olds, key, nk, last_old, k) matches Some(i) ==> k <= i < olds.len()
            && is_fwd(last_old, i) && key_of(olds[i], key) == Some(nk),
    decreases olds.len() - k,
{
    if k < olds.len() {
        lemma_first_match_from(olds, key, nk, last_old, k + 1);
    }
}

/// The first old position from `i` on, after `last_old`, with the key `nk` is `p` when `p` is
/// one and none before it is.
proof fn lemma_first_match_at(
    olds: Seq<Node>,
    key: Seq<char>,
    nk: Seq<Seq<char>>,
    last_old: Option<int>,
    i: int,
    p: int,
)
    requires
        0 <= i <= p < olds.len(),
        is_fwd(last_old, p),
        key_of(olds[p], key) == Some(nk),
        forall|q: int| i <= q < p && is_fwd(last_old, q) ==> key_of(#[trigger] olds[q], key) != Some(nk),
    ensures
        first_match_from(olds, key, nk, last_old, i) == Some(p),
    decreases p - i,
{
    if i < p {
        lemma_first_match_at(olds, key, nk, last_old, i + 1, p);
    }
}

/// No old position from `i` on, after `last_old`, has the key `nk` when none has it.
proof fn lemma_first_match_none(
    olds: Seq<Node>,
    key: Seq<char>,
    nk: Seq<Seq<char>>,
    last_old: Option<int>,
    i: int,
)
    requires
        0 <= i,
        forall|q: int| i <= q < olds.len() && is_fwd(last_old, q) ==> key_of(#[trigger] olds[q], key) != Some(nk),
    ensures
        first_match_from(olds, key, nk, last_old, i) is None,
    decreases olds.len() - i,
{
    if i < olds.len() {
        lemma_first_match_none(olds, key, nk, last_old, i + 1);
    }
}

/// Finds the old child that the new child at `j` is matched to, in the ordered map of the keys
/// of the old children by their positions.
pub(crate) fn find_matched_old(
    old_key_index: &BTreeMap<usize, Vec<&Val>>,
    olds: &Vec<Node>,
    news: &Vec<Node>,
    key: &Att,
    last_old: Option<usize>,
    j: usize,
) -> (r: Option<usize>)
    requires
        j < news@.len(),
        keys_by_position(old_key_index@, olds@, 0, olds@.len() as int, (*key)@),
    ensures
        opt_int(r) == matched_old(olds@, news@, (*key)@, opt_int(last_old), j as int),
{
    let olds_len = olds.len();
    let nk = node_key(&news[j], key);
    match &nk {
        None => None,
        Some(values) => {
            let ghost nkv = strs_view(values@);
            let found = first_entry_with_key(old_key_index, values, last_old);
            proof {
                assert(key_of(news@[j as int], (*key)@) == Some(nkv));
                match found {
                    Some(p) => {
                        assert(olds@[p as int] == olds@[0 + p]);
                        assert forall|q: int| 0 <= q < p && is_fwd(opt_int(last_old), q) implies key_of(
                            #[trigger] olds@[q],
                            (*key)@,
                        ) != Some(nkv) by {
                            if key_of(olds@[q], (*key)@) == Some(nkv) {
                                assert(olds@[q] == olds@[0 + q]);
                                assert(old_key_index@.contains_key(q as usize));
                                assert(after_position(last_old, q as usize));
                            }
                        }
                        lemma_first_match_at(olds@, (*key)@, nkv, opt_int(last_old), 0, p as int);
                    },
                    None => {
                        assert forall|q: int| 0 <= q < olds@.len() && is_fwd(opt_int(last_old), q) implies key_of(
                            #[trigger] olds@[q],
                            (*key)@,
                        ) != Some(nkv) by {
                            if key_of(olds@[q], (*key)@) == Some(nkv) {
                                assert(olds@[q] == olds@[0 + q]);
                                assert(old_key_index@.contains_key(q as usize));
                                assert(after_position(last_old, q as usize));
                            }
                        }
                        lemma_first_match_none(olds@, (*key)@, nkv, opt_int(last_old), 0);
                    },
                }
            }
            found
        },
    }
}

/// Whether some new key is also an old key: the ordered map of the keys of the new children is
/// walked, and each of its keys is looked for in that of the old children.
fn has_any_match(
    old_key_index: &BTreeMap<usize, Vec<&Val>>,
    new_key_index: &BTreeMap<usize, Vec<&Val>>,
    olds: &Vec<Node>,
    news: &Vec<Node>,
    key: &Att,
) -> (r: bool)
    requires
        keys_by_position(old_key_index@, olds@, 0, olds@.len() as int, (*key)@),
        keys_by_position(new_key_index@, news@, 0, news@.len() as int, (*key)@),
    ensures
        r == has_match(olds@, news@, (*key)@),
{
    let olds_len = olds.len();
    let news_len = news.len();
    let ghost s = spec_btree_map_iter(new_key_index).remaining();
    let mut found = false;
    for entry in it: new_key_index.iter()
        invariant
            it.seq() == s,
            keys_by_position(old_key_index@, olds@, 0, olds@.len() as int, (*key)@),
            keys_by_position(new_key_index@, news@, 0, news@.len() as int, (*key)@),
            found ==> has_match(olds@, news@, (*key)@),
            !found ==> forall|t: int| 0 <= t < it.index() ==> forall|q: usize|
                #[trigger] old_key_index@.contains_key(q) ==> strs_view(old_key_index@[q]@) != strs_view(
                    (*(#[trigger] s[t]).1)@,
                ),
    {
        let (position, values) = entry;
        proof {
            axiom_spec_btree_map_iter(new_key_index);
        }
        if !found {
            if let Some(q) = first_entry_with_key(old_key_index, values, None) {
                proof {
                    let p = *position;
                    assert(new_key_index@.contains_key(p) && new_key_index@[p] == *values);
                    assert(news@[p as int] == news@[0 + p]);
                    assert(olds@[q as int] == olds@[0 + q]);
                    assert(key_of(news@[p as int], (*key)@) is Some && key_of(news@[p as int], (*key)@)
                        == key_of(olds@[q as int], (*key)@));
                }
                found = true;
            }
        }
    }
    proof {
        assert(olds_len == olds@.len() && news_len == news@.len());
        axiom_spec_btree_map_iter(new_key_index);
        if !found && has_match(olds@, news@, (*key)@) {
            let (i, j) = choose|i: int, j: int|
                0 <= i < olds@.len() && 0 <= j < news@.len() && key_of(#[trigger] news@[j], (*key)@)
                    is Some && key_of(news@[j], (*key)@) == key_of(#[trigger] olds@[i], (*key)@);
            assert(news@[j] == news@[0 + j]);
            assert(olds@[i] == olds@[0 + i]);
            assert(new_key_index@.contains_key(j as usize));
            assert(old_key_index@.contains_key(i as usize));
            assert(s.contains((&(j as usize), &new_key_index@[j as usize])));
            let t1 = choose|t1: int| 0 <= t1 < s.len() && s[t1] == (&(j as usize), &new_key_index@[j as usize]);
            assert(strs_view(old_key_index@[i as usize]@) == strs_view((*s[t1].1)@));
        }
    }
    found
}

/// Appends the patches that remove the old children from position `lo` to `hi`, excluded.
pub(crate) fn push_removes<'a>(patches: &mut Vec<Patch<'a>>, olds: &'a Vec<Node>, path: &TreePath, lo: usize, hi: usize)
    requires
        lo <= hi <= olds@.len(),
    ensures
        patches_view(final(patches)@) == patches_view(old(patches)@) + removes_range(
            olds@,
            path@,
            lo as int,
            hi as int,
        ),
{
    let ghost start = patches@;
    let mut k: usize = lo;
    while k < hi
        invariant
            lo <= k <= hi,
            hi <= olds@.len(),
            patches_view(patches@) == patches_view(start) + removes_range(
                olds@,
                path@,
                lo as int,
                k as int,
            ),
        decreases hi - k,
    {
        let ghost before = patches@;
        patches.push(Patch::remove_node(olds[k].tag(), path.traverse(k)));
        proof {
            lemma_removes_range_push(olds@, path@, lo as int, k as int);
            assert(patches_view(patches@) =~= patches_view(before).push(
                remove_patch(olds@[k as int], path@.push(k)),
            ));
        }
        assert(patches_view(patches@) =~= patches_view(start) + removes_range(
            olds@,
            path@,
            lo as int,
            k + 1,
        ));
        k += 1;
    }
    assert(patches_view(patches@) =~= patches_view(start) + removes_range(
        olds@,
        path@,
        lo as int,
        hi as int,
    ));
}

/// The patches that `diff_keyed_elements` gives, or `None` on the children on which diffing a
/// matched pair of them panics.
#[verifier::rlimit(40)]
pub fn try_diff_keyed_elements<
    'a,
    Skip: Fn(&Node, &Node) -> bool,
    Rep: Fn(&Node, &Node) -> bool,
>(
    old_element: &'a Element,
    new_element: &'a Element,
    key: &Att,
    path: &TreePath,
    skip: &Skip,
    rep: &Rep,
) -> (r: Option<Vec<Patch<'a>>>)
    requires
        well_behaved(*skip),
        well_behaved(*rep),
    ensures
        ({
            let d = keyed_diff(
                old_element.tag,
                old_element.children@,
                new_element.children@,
                path@,
                (*key)@,
                decision(*skip),
                decision(*rep),
            );
            &&& r is Some <==> d is Some
            &&& r matches Some(v) ==> patches_view(v@) == d->0
        }),
    decreases old_element, 1nat,
{
    let ghost sk = decision(*skip);
    let ghost rp = decision(*rep);
    let olds = &old_element.children;
    let news = &new_element.children;
    let mut patches: Vec<Patch<'a>> = Vec::new();
    // the keys of the old and of the new children by their positions
    let old_key_index = build_keys_by_position(olds, 0, olds.len(), key);
    let new_key_index = build_keys_by_position(news, 0, news.len(), key);
    // return early if there new no matches
    if !has_any_match(&old_key_index, &new_key_index, olds, news, key) {
        push_removes(&mut patches, olds, path, 0, olds.len());
        if news.len() > 0 {
            let ghost before = patches@;
            patches.push(
                Patch::append_children(
                    &old_element.tag,
                    copy_path(path),
                    node_refs(news, 0, news.len()),
                ),
            );
            assert(news@.subrange(0, news@.len() as int) =~= news@);
            assert(patches_view(patches@) =~= patches_view(before) + seq![
                PatchModel::AppendChildren {
                    tag: old_element.tag,
                    patch_path: path@,
                    children: news@,
                },
            ]);
        }
        assert(patches_view(patches@) =~= keyed_diff(
            old_element.tag,
            olds@,
            news@,
            path@,
            (*key)@,
            sk,
            rp,
        )->0);
        return Some(patches);
    }
    let olds_len = olds.len();
    let news_len = news.len();
    let ghost whole = keyed_diff(old_element.tag, olds@, news@, path@, (*key)@, sk, rp);
    assert(whole == keyed_loop(olds@, news@, path@, (*key)@, sk, rp, 0, None, None));
    assert(patches_view(patches@) =~= Seq::<PatchModel>::empty());
    // a pointer to the last matched
    let mut last_matched_old_index: Option<usize> = None;
    let mut last_matched_new_index: Option<usize> = None;
    let mut new_index: usize = 0;
    while new_index < news.len()
        invariant
            well_behaved(*skip),
            well_behaved(*rep),
            sk == decision(*skip),
            rp == decision(*rep),
            olds == &old_element.children,
            news == &new_element.children,
            keys_by_position(old_key_index@, olds@, 0, olds@.len() as int, (*key)@),
            new_index <= news@.len(),
            olds_len == olds@.len(),
            news_len == news@.len(),
            last_matched_old_index matches Some(x) ==> x < olds@.len(),
            last_matched_new_index matches Some(x) ==> x < new_index,
            whole == keyed_diff(old_element.tag, olds@, news@, path@, (*key)@, sk, rp),
            opt_concat(
                Some(patches_view(patches@)),
                keyed_loop(
                    olds@,
                    news@,
                    path@,
                    (*key)@,
                    sk,
                    rp,
                    new_index as int,
                    opt_int(last_matched_old_index),
                    opt_int(last_matched_new_index),
                ),
            ) == whole,
        decreases news@.len() - new_index,
    {
        let ghost lo = opt_int(last_matched_old_index);
        let ghost ln = opt_int(last_matched_new_index);
        let matched = find_matched_old(&old_key_index, olds, news, key, last_matched_old_index, new_index);
        if let Some(matched_old_index) = matched {
            proof {
                let nk = key_of(news@[new_index as int], (*key)@)->0;
                lemma_first_match_from(olds@, (*key)@, nk, lo, 0);
            }
            let ghost before = patches@;
            let child_path = path.traverse(matched_old_index);
            let mut patch_for_matched = match try_diff_recursive(
                &olds[matched_old_index],
                &news[new_index],
                &child_path,
                key,
                skip,
                rep,
            ) {
                Some(v) => v,
                None => {
                    return None;
                },
            };
            let ghost step = keyed_step(
                olds@,
                news@,
                path@,
                (*key)@,
                sk,
                rp,
                matched_old_index as int,
                new_index as int,
                lo,
                ln,
            )->0;
            let ghost more = patch_for_matched@;
            patches.append(&mut patch_for_matched);
            proof {
                lemma_patches_view_add(before, more);
            }
            let from = match last_matched_old_index {
                Some(x) => x + 1,
                None => 0,
            };
            push_removes(&mut patches, olds, path, from, matched_old_index);
            //assign this matched_old_index to the last_matched_old_index
            last_matched_old_index = Some(matched_old_index);
            let new_from = match last_matched_new_index {
                Some(x) => x + 1,
                None => 0,
            };
            let for_insert_nodes = node_refs(news, new_from, new_index);
            if for_insert_nodes.len() > 0 {
                let ghost before_insert = patches@;
                patches.push(
                    Patch::insert_before_node(
                        olds[matched_old_index].tag(),
                        path.traverse(matched_old_index),
                        for_insert_nodes,
                    ),
                );
                assert(patches_view(patches@) =~= patches_view(before_insert) + seq![
                    patches@.last()@,
                ]);
            }
            //assign last matched_new_index to the new_index we are iterating on
            last_matched_new_index = Some(new_index);
            assert(patches_view(patches@) =~= patches_view(before) + step);
            proof {
                lemma_opt_concat_assoc(
                    patches_view(before),
                    step,
                    keyed_loop(
                        olds@,
                        news@,
                        path@,
                        (*key)@,
                        sk,
                        rp,
                        new_index + 1,
                        Some(matched_old_index as int),
                        Some(new_index as int),
                    ),
                );
            }
        }
        new_index += 1;
    }
    // remove what's left in the old_elements after last_matched_old_index
    let from = match last_matched_old_index {
        Some(x) => x + 1,
        None => 0,
    };
    let ghost before_tail = patches@;
    push_removes(&mut patches, olds, path, from, olds.len());
    let old_index_marked_node = match last_matched_old_index {
        Some(x) => x,
        None => 0,
    };
    let old_tag = if old_index_marked_node < olds.len() {
        olds[old_index_marked_node].tag()
    } else {
        None
    };
    // insert all the elements after the last_matched_new_index, insert it before the
    // node at last_matched_old_index
    let new_from = match last_matched_new_index {
        Some(x) => x + 1,
        None => 0,
    };
    let remaining_new_nodes = node_refs(news, new_from, news.len());
    if remaining_new_nodes.len() > 0 {
        let ghost before_insert = patches@;
        patches.push(
            Patch::insert_after_node(
                old_tag,
                path.traverse(old_index_marked_node),
                remaining_new_nodes,
            ),
        );
        assert(patches_view(patches@) =~= patches_view(before_insert) + seq![patches@.last()@]);
    }
    assert(patches_view(patches@) =~= patches_view(before_tail) + keyed_tail(
        olds@,
        news@,
        path@,
        opt_int(last_matched_old_index),
        opt_int(last_matched_new_index),
    ));
    Some(patches)
}

/// diff the old element with new element, matching their children by key
pub fn diff_keyed_elements<'a, Skip: Fn(&Node, &Node) -> bool, Rep: Fn(&Node, &Node) -> bool>(
    old_element: &'a Element,
    new_element: &'a Element,
    key: &Att,
    path: &TreePath,
    skip: &Skip,
    rep: &Rep,
) -> (r: Vec<Patch<'a>>)
    requires
        well_behaved(*skip),
        well_behaved(*rep),
        keyed_diff(
            old_element.tag,
            old_element.children@,
            new_element.children@,
            path@,
            (*key)@,
            decision(*skip),
            decision(*rep),
        ) is Some,
    ensures
        patches_view(r@) == keyed_diff(
            old_element.tag,
            old_element.children@,
            new_element.children@,
            path@,
            (*key)@,
            decision(*skip),
            decision(*rep),
        )->0,
{
    try_diff_keyed_elements(old_element, new_element, key, path, skip, rep).unwrap()
}

} // verus!

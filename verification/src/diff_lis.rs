//! diff with longest increasing subsequence
//!
//! The children of two elements are matched by key from both ends; the children in the middle
//! that keep their keys are matched along a longest increasing subsequence of the positions
//! that the old children had, and the others are moved, inserted or removed around them.
use crate::diff::laws::{all_plain, lemma_pairs_self};
use crate::diff::keyed::push_removes;
use crate::diff::{
    copy_path, decision, try_diff_recursive, key_of, never, lemma_pairs_diff_prefix,
    lemma_patches_view_add, node_key, node_refs, opt_concat, pairs_diff, remove_patch, removes_range,
    same_key, spec_diff, well_behaved, build_keys_by_position, first_entry_with_key, keys_by_position,
};
use crate::node::attribute::{Att, Tag, Val};
use crate::text::strs_view;
use crate::node::{tag_of, Element, Node};
use crate::patch::{nodes_of, paths_of, patches_view, Patch, PatchModel, TreePath};
use vstd::prelude::*;

verus! {

/// The position that marks a new child that no old child matches.
pub open spec fn unmatched() -> usize {
    u32::MAX as usize
}

/// What `longest_increasing_subsequence::lis_with` gives, for the order `<`, on a sequence of
/// positions: the positions of one of its longest strictly increasing subsequences, from the
/// end of that subsequence to its start.
pub uninterp spec fn lis_of(items: Seq<usize>) -> Seq<usize>;

/// The order in which the longest increasing subsequence is searched.
fn less_than(a: &usize, b: &usize) -> (r: bool)
    ensures
        r == (*a < *b),
{
    *a < *b
}

/// Calls `longest_increasing_subsequence::lis_with` on `items`, with `<` as the order and fresh
/// scratch space of the length of `items`, and gives back what it appended to an empty vector.
/// The contract claims what the crate's documentation and source state: the result is named
/// `lis_of(items)`, a function of the items alone; it is empty exactly when `items` is; it
/// holds positions of `items`, from the end of the subsequence to its start, so that the
/// positions decrease and the values at them decrease along the result. That the subsequence
/// is a longest one is not stated.
#[verifier::external_body]
fn longest_increasing(items: &Vec<usize>) -> (r: Vec<usize>)
    ensures
        r@ == lis_of(items@),
        items@.len() == 0 <==> r@.len() == 0,
        forall|k: int| 0 <= k < r@.len() ==> r@[k] < items@.len(),
        forall|a: int, b: int|
            0 <= a < b < r@.len() ==> r@[b] < r@[a] && items@[r@[b] as int] < items@[r@[a] as int],
{
    let mut seq: Vec<usize> = Vec::new();
    let mut predecessors = vec![0; items.len()];
    let mut starts = vec![0; items.len()];
    longest_increasing_subsequence::lis_with(
        items,
        &mut seq,
        less_than,
        &mut predecessors,
        &mut starts,
    );
    seq
}

/// The number of leading pairs of children with the same key, counting from position `i`.
pub open spec fn lead(olds: Seq<Node>, news: Seq<Node>, key: Seq<char>, i: int) -> int
    decreases olds.len() - i,
{
    if 0 <= i < olds.len() && i < news.len() && key_of(olds[i], key) == key_of(news[i], key) {
        lead(olds, news, key, i + 1)
    } else {
        i
    }
}

/// The number of trailing pairs of children with the same key, counting from the `t`-th last
/// pair, that stay clear of the first `l` old children and of the first `l` new ones.
pub open spec fn trail(olds: Seq<Node>, news: Seq<Node>, key: Seq<char>, l: int, t: int) -> int
    decreases olds.len() - t,
{
    if 0 <= t < olds.len() && t < news.len() && olds.len() - 1 - t >= l && news.len() - 1 - t
        >= l && key_of(
        olds[olds.len() - 1 - t],
        key,
    ) == key_of(news[news.len() - 1 - t], key) {
        trail(olds, news, key, l, t + 1)
    } else {
        t
    }
}

/// The diffs of the last `n` pairs of children, in their order.
pub open spec fn trail_diff(
    olds: Seq<Node>,
    news: Seq<Node>,
    path: Seq<usize>,
    key: Seq<char>,
    sk: spec_fn(Node, Node) -> bool,
    rp: spec_fn(Node, Node) -> bool,
    n: int,
) -> Option<Seq<PatchModel>>
    decreases olds, if n > 0 { n as nat } else { 0nat },
{
    if n <= 0 {
        Some(Seq::empty())
    } else {
        let oi = olds.len() - n;
        let ni = news.len() - n;
        opt_concat(
            if 0 <= oi < olds.len() && 0 <= ni < news.len() {
                spec_diff(olds[oi], news[ni], path.push(oi as usize), key, sk, rp)
            } else {
                None
            },
            trail_diff(olds, news, path, key, sk, rp, n - 1),
        )
    }
}

/// The patches of the matching of the children from both ends: the diffs of the leading pairs
/// with the same key; then, when all the old children or all the new ones are matched, the
/// appending of the other new children or the removal of the other old ones; otherwise the
/// diffs of the trailing pairs with the same key.
pub open spec fn ends_patches(
    tag: Tag,
    olds: Seq<Node>,
    news: Seq<Node>,
    path: Seq<usize>,
    key: Seq<char>,
    sk: spec_fn(Node, Node) -> bool,
    rp: spec_fn(Node, Node) -> bool,
) -> Option<Seq<PatchModel>>
    decreases olds, olds.len() + news.len() + 1,
{
    proof {
        lemma_lead_bound(olds, news, key, 0);
        lemma_trail(olds, news, key, lead(olds, news, key, 0), 0);
    }
    let l = lead(olds, news, key, 0);
    let leading = pairs_diff(olds, news, path, key, sk, rp, l);
    if l == olds.len() {
        opt_concat(
            leading,
            Some(
                if news.len() > l {
                    seq![PatchModel::AppendChildren { tag, patch_path: path, children: news.skip(l) }]
                } else {
                    Seq::empty()
                },
            ),
        )
    } else if l == news.len() {
        opt_concat(leading, Some(removes_range(olds, path, l, olds.len() as int)))
    } else {
        opt_concat(leading, trail_diff(olds, news, path, key, sk, rp, trail(olds, news, key, l, 0)))
    }
}

/// The numbers of leading and trailing pairs matched from both ends, when there are children in
/// the middle to match.
pub open spec fn ends_offsets(olds: Seq<Node>, news: Seq<Node>, key: Seq<char>) -> Option<
    (int, int),
> {
    let l = lead(olds, news, key, 0);
    if l == olds.len() || l == news.len() {
        None
    } else {
        Some((l, trail(olds, news, key, l, 0)))
    }
}

/// The first old position from `i` on whose child has the key `k`.
pub open spec fn first_with_key(oc: Seq<Node>, key: Seq<char>, k: Seq<Seq<char>>, i: int) -> Option<
    int,
>
    decreases oc.len() - i,
{
    if i < 0 || i >= oc.len() {
        None
    } else if key_of(oc[i], key) == Some(k) {
        Some(i)
    } else {
        first_with_key(oc, key, k, i + 1)
    }
}

/// For each new child, the position of the first old child with its key, or `unmatched()`.
pub open spec fn index_map(oc: Seq<Node>, nc: Seq<Node>, key: Seq<char>) -> Seq<usize> {
    Seq::new(
        nc.len(),
        |j: int|
            match key_of(nc[j], key) {
                Some(k) => match first_with_key(oc, key, k, 0) {
                    Some(i) => i as usize,
                    None => unmatched(),
                },
                None => unmatched(),
            },
    )
}

/// Whether some new child has the key of some old child.
pub open spec fn any_shared(oc: Seq<Node>, nc: Seq<Node>, key: Seq<char>) -> bool {
    exists|j: int, i: int|
        0 <= j < nc.len() && 0 <= i < oc.len() && key_of(#[trigger] nc[j], key) is Some && key_of(
            nc[j],
            key,
        ) == key_of(#[trigger] oc[i], key)
}

/// Whether the old child at `i` goes: it has no key, or no new child has its key.
pub open spec fn removed(oc: Seq<Node>, nc: Seq<Node>, key: Seq<char>, i: int) -> bool {
    match key_of(oc[i], key) {
        Some(_) => !(exists|j: int| 0 <= j < nc.len() && key_of(#[trigger] nc[j], key) == key_of(oc[i], key)),
        None => true,
    }
}

/// The removals of the old children, among the first `n`, that go.
pub open spec fn removals(
    oc: Seq<Node>,
    nc: Seq<Node>,
    key: Seq<char>,
    path: Seq<usize>,
    l: int,
    n: int,
) -> Seq<PatchModel>
    decreases n,
{
    if n <= 0 {
        Seq::empty()
    } else {
        removals(oc, nc, key, path, l, n - 1) + if removed(oc, nc, key, n - 1) {
            seq![remove_patch(oc[n - 1], path.push((l + n - 1) as usize))]
        } else {
            Seq::empty()
        }
    }
}

/// The positions of the longest increasing subsequence of the map, in increasing order, without
/// its last one when that marks an unmatched child.
pub open spec fn lis_order(map: Seq<usize>) -> Seq<usize> {
    let asc = lis_of(map).reverse();
    if asc.len() > 0 && map[asc.last() as int] == unmatched() {
        asc.drop_last()
    } else {
        asc
    }
}

/// The diff of the old child at `i` and the new child at `j`, at `path`, when there is such an
/// old child.
pub open spec fn diff_at(
    oc: Seq<Node>,
    nc: Seq<Node>,
    i: usize,
    j: int,
    path: Seq<usize>,
    key: Seq<char>,
    sk: spec_fn(Node, Node) -> bool,
    rp: spec_fn(Node, Node) -> bool,
) -> Option<Seq<PatchModel>>
    decreases oc, 0nat,
{
    if (i as int) < oc.len() && 0 <= j < nc.len() {
        spec_diff(oc[i as int], nc[j], path, key, sk, rp)
    } else {
        None
    }
}

/// The diffs of the first `n` matched pairs along the subsequence.
pub open spec fn lis_diffs(
    oc: Seq<Node>,
    nc: Seq<Node>,
    map: Seq<usize>,
    lis: Seq<usize>,
    path: Seq<usize>,
    key: Seq<char>,
    sk: spec_fn(Node, Node) -> bool,
    rp: spec_fn(Node, Node) -> bool,
    n: int,
) -> Option<Seq<PatchModel>>
    decreases oc, if n > 0 { n as nat + 1 } else { 1nat },
{
    if n <= 0 {
        Some(Seq::empty())
    } else {
        opt_concat(
            lis_diffs(oc, nc, map, lis, path, key, sk, rp, n - 1),
            diff_at(oc, nc, map[lis[n - 1] as int], lis[n - 1] as int, path, key, sk, rp),
        )
    }
}

/// The new children from `a` to `b`, excluded: the diffs of those that an old child matches,
/// the new children that none matches, and the paths of the matching old children.
pub open spec fn scan(
    oc: Seq<Node>,
    nc: Seq<Node>,
    map: Seq<usize>,
    l: int,
    path: Seq<usize>,
    key: Seq<char>,
    sk: spec_fn(Node, Node) -> bool,
    rp: spec_fn(Node, Node) -> bool,
    a: int,
    b: int,
) -> (Option<Seq<PatchModel>>, Seq<Node>, Seq<Seq<usize>>)
    decreases oc, if b > a { (b - a) as nat + 1 } else { 1nat },
{
    if b <= a {
        (Some(Seq::empty()), Seq::empty(), Seq::empty())
    } else {
        let prev = scan(oc, nc, map, l, path, key, sk, rp, a, b - 1);
        let j = b - 1;
        if map[j] == unmatched() {
            (prev.0, prev.1.push(nc[j]), prev.2)
        } else {
            (
                opt_concat(prev.0, diff_at(oc, nc, map[j], j, path, key, sk, rp)),
                prev.1,
                prev.2.push(path.push((l + map[j]) as usize)),
            )
        }
    }
}

/// The new children after the last of the subsequence: their diffs, the move of the matched ones
/// after the old child at the position of that last one, and the insertion of the others after
/// the old child that the last one matches.
pub open spec fn after_last(
    oc: Seq<Node>,
    nc: Seq<Node>,
    map: Seq<usize>,
    lis: Seq<usize>,
    l: int,
    path: Seq<usize>,
    key: Seq<char>,
    sk: spec_fn(Node, Node) -> bool,
    rp: spec_fn(Node, Node) -> bool,
) -> Option<Seq<PatchModel>>
    decreases oc, nc.len() + 2,
{
    let last = lis.last() as int;
    if last < nc.len() - 1 {
        let s = scan(oc, nc, map, l, path, key, sk, rp, last + 1, nc.len() as int);
        let moves = if s.2.len() > 0 {
            if l + last < oc.len() {
                Some(
                    seq![
                        PatchModel::MoveAfterNode {
                            tag: tag_of(oc[l + last]),
                            patch_path: path.push((l + last) as usize),
                            nodes_path: s.2,
                        },
                    ],
                )
            } else {
                None
            }
        } else {
            Some(Seq::empty())
        };
        let oi = map[last];
        if (oi as int) < oc.len() {
            opt_concat(
                s.0,
                opt_concat(
                    moves,
                    Some(
                        if s.1.len() > 0 {
                            seq![
                                PatchModel::InsertAfterNode {
                                    tag: tag_of(oc[oi as int]),
                                    patch_path: path.push((l + oi) as usize),
                                    nodes: s.1,
                                },
                            ]
                        } else {
                            Seq::empty()
                        },
                    ),
                ),
            )
        } else {
            None
        }
    } else {
        Some(Seq::empty())
    }
}

/// The new children strictly between `next` and the last of the subsequence: their diffs, and
/// the insertion of those that no old child matches before the old child at the position of
/// that last one.
pub open spec fn gap(
    oc: Seq<Node>,
    nc: Seq<Node>,
    map: Seq<usize>,
    last: int,
    next: int,
    l: int,
    path: Seq<usize>,
    key: Seq<char>,
    sk: spec_fn(Node, Node) -> bool,
    rp: spec_fn(Node, Node) -> bool,
) -> Option<Seq<PatchModel>>
    decreases oc, if last - next > 1 { (last - next) as nat + 1 } else { 1nat },
{
    if last - next > 1 {
        let s = scan(oc, nc, map, l, path, key, sk, rp, next + 1, last);
        opt_concat(
            s.0,
            if s.1.len() > 0 {
                if last < oc.len() {
                    Some(
                        seq![
                            PatchModel::InsertBeforeNode {
                                tag: tag_of(oc[last]),
                                patch_path: path.push((l + last) as usize),
                                nodes: s.1,
                            },
                        ],
                    )
                } else {
                    None
                }
            } else {
                Some(Seq::empty())
            },
        )
    } else {
        Some(Seq::empty())
    }
}

/// The gaps between the last of the subsequence and each of the `m` positions before it,
/// nearest first.
pub open spec fn gaps(
    oc: Seq<Node>,
    nc: Seq<Node>,
    map: Seq<usize>,
    lis: Seq<usize>,
    l: int,
    path: Seq<usize>,
    key: Seq<char>,
    sk: spec_fn(Node, Node) -> bool,
    rp: spec_fn(Node, Node) -> bool,
    m: int,
) -> Option<Seq<PatchModel>>
    decreases oc, if m > 0 { m as nat + span_bound() } else { span_bound() },
{
    if m <= 0 {
        Some(Seq::empty())
    } else {
        opt_concat(
            gaps(oc, nc, map, lis, l, path, key, sk, rp, m - 1),
            gap(
                oc,
                nc,
                map,
                lis.last() as int,
                lis[lis.len() - 1 - m] as int,
                l,
                path,
                key,
                sk,
                rp,
            ),
        )
    }
}

/// The new children before the first of the subsequence: their diffs, the move of the matched
/// ones before the first old child, and the insertion of the others before the old child that
/// the first of the subsequence matches.
pub open spec fn before_first(
    oc: Seq<Node>,
    nc: Seq<Node>,
    map: Seq<usize>,
    lis: Seq<usize>,
    l: int,
    path: Seq<usize>,
    key: Seq<char>,
    sk: spec_fn(Node, Node) -> bool,
    rp: spec_fn(Node, Node) -> bool,
) -> Option<Seq<PatchModel>>
    decreases oc, span_bound(),
{
    let first = lis[0] as int;
    if first > 0 {
        let s = scan(oc, nc, map, l, path, key, sk, rp, 0, first);
        let moves = if s.2.len() > 0 {
            if l < oc.len() {
                Some(
                    seq![
                        PatchModel::MoveBeforeNode {
                            tag: tag_of(oc[l]),
                            patch_path: path.push(l as usize),
                            nodes_path: s.2,
                        },
                    ],
                )
            } else {
                None
            }
        } else {
            Some(Seq::empty())
        };
        let inserts = if s.1.len() > 0 {
            let oi = map[first];
            if (oi as int) < oc.len() {
                Some(
                    seq![
                        PatchModel::InsertBeforeNode {
                            tag: tag_of(oc[oi as int]),
                            patch_path: path.push((l + oi) as usize),
                            nodes: s.1,
                        },
                    ],
                )
            } else {
                None
            }
        } else {
            Some(Seq::empty())
        };
        opt_concat(s.0, opt_concat(moves, inserts))
    } else {
        Some(Seq::empty())
    }
}

/// A bound above the distance between any two positions held in a `usize`.
pub open spec fn span_bound() -> nat {
    0x1_0000_0000_0000_0002
}

/// What decreases from the keyed diff of the children of a middle to the diffs it makes.
pub open spec fn keyed_rank(oc: Seq<Node>, nc: Seq<Node>, key: Seq<char>) -> nat {
    lis_order(index_map(oc, nc, key)).len() + nc.len() + span_bound() + 3
}

/// What decreases from the diff of a middle, between the matched ends at `l` and `r`, to the
/// keyed diff of its children.
pub open spec fn middle_rank(olds: Seq<Node>, news: Seq<Node>, key: Seq<char>, l: int, r: int) -> nat {
    let oe = if olds.len() - r >= l {
        olds.len() - r
    } else {
        l
    };
    let ne = if news.len() - r >= l {
        news.len() - r
    } else {
        l
    };
    keyed_rank(olds.subrange(l, oe), news.subrange(l, ne), key) + 1
}

/// What decreases from the keyed diff of two sequences of children to the diffs it makes.
pub open spec fn lis_rank(olds: Seq<Node>, news: Seq<Node>, key: Seq<char>) -> nat {
    olds.len() + news.len() + 2 + match ends_offsets(olds, news, key) {
        Some((l, r)) => middle_rank(olds, news, key, l, r),
        None => 0,
    }
}

/// The patches of the children in the middle, `oc` the old ones and `nc` the new ones, `l` being
/// the position of the first of them: when no new key is an old key, the removal of all the old
/// children but the first, which the new children replace; otherwise the removal of the old
/// children whose key no new child has, the diffs along the subsequence, and the moves and
/// insertions after its last, between its positions and before its first. `None` where the
/// middle cannot be diffed.
pub open spec fn keyed_middle(
    oc: Seq<Node>,
    nc: Seq<Node>,
    l: int,
    path: Seq<usize>,
    key: Seq<char>,
    sk: spec_fn(Node, Node) -> bool,
    rp: spec_fn(Node, Node) -> bool,
) -> Option<Seq<PatchModel>>
    decreases oc, keyed_rank(oc, nc, key),
{
    let map = index_map(oc, nc, key);
    if !any_shared(oc, nc, key) && oc.len() > 0 {
        if l < oc.len() {
            Some(
                removes_range(oc, path, 1, oc.len() as int) + seq![
                    PatchModel::ReplaceNode {
                        tag: tag_of(oc[l]),
                        patch_path: path.push(l as usize),
                        replacement: nc,
                    },
                ],
            )
        } else {
            None
        }
    } else {
        let lis = lis_order(map);
        if lis.len() == 0 {
            None
        } else {
            opt_concat(
                Some(removals(oc, nc, key, path, l, oc.len() as int)),
                opt_concat(
                    lis_diffs(oc, nc, map, lis, path, key, sk, rp, lis.len() as int),
                    opt_concat(
                        after_last(oc, nc, map, lis, l, path, key, sk, rp),
                        opt_concat(
                            gaps(oc, nc, map, lis, l, path, key, sk, rp, lis.len() - 1),
                            before_first(oc, nc, map, lis, l, path, key, sk, rp),
                        ),
                    ),
                ),
            )
        }
    }
}

/// The patches of the middle, between the matched ends at `l` and `r`: the removal of the old
/// children when no new one is left, the insertion of the new ones before the first trailing old
/// child when no old one is left, and otherwise the keyed diff of the middle.
pub open spec fn middle(
    olds: Seq<Node>,
    news: Seq<Node>,
    path: Seq<usize>,
    key: Seq<char>,
    sk: spec_fn(Node, Node) -> bool,
    rp: spec_fn(Node, Node) -> bool,
    l: int,
    r: int,
) -> Option<Seq<PatchModel>>
    decreases olds, middle_rank(olds, news, key, l, r),
{
    let oe = if olds.len() - r >= l {
        olds.len() - r
    } else {
        l
    };
    let ne = if news.len() - r >= l {
        news.len() - r
    } else {
        l
    };
    let nm = news.subrange(l, ne);
    if ne == l {
        Some(removes_range(olds, path, l, oe))
    } else if oe == l {
        if 0 <= l < olds.len() {
            Some(
                seq![
                    PatchModel::InsertBeforeNode {
                        tag: tag_of(olds[l]),
                        patch_path: path.push(l as usize),
                        nodes: nm,
                    },
                ],
            )
        } else {
            None
        }
    } else if 0 <= l && oe <= olds.len() {
        proof {
            if l == 0 && oe == olds.len() {
                assert(olds.subrange(l, oe) =~= olds);
            }
        }
        keyed_middle(olds.subrange(l, oe), nm, l, path, key, sk, rp)
    } else {
        None
    }
}

/// The patches of the keyed diff of the children of two elements, matched from both ends and
/// then along a longest increasing subsequence, or `None` where that diff panics.
pub open spec fn lis_diff(
    tag: Tag,
    olds: Seq<Node>,
    news: Seq<Node>,
    path: Seq<usize>,
    key: Seq<char>,
    sk: spec_fn(Node, Node) -> bool,
    rp: spec_fn(Node, Node) -> bool,
) -> Option<Seq<PatchModel>>
    decreases olds, lis_rank(olds, news, key),
{
    match ends_offsets(olds, news, key) {
        None => ends_patches(tag, olds, news, path, key, sk, rp),
        Some((l, r)) => opt_concat(
            ends_patches(tag, olds, news, path, key, sk, rp),
            middle(olds, news, path, key, sk, rp, l, r),
        ),
    }
}

/// The leading pairs with the same key stay within both sequences.
pub proof fn lemma_lead_bound(olds: Seq<Node>, news: Seq<Node>, key: Seq<char>, i: int)
    requires
        0 <= i <= olds.len(),
        i <= news.len(),
    ensures
        i <= lead(olds, news, key, i) <= olds.len(),
        lead(olds, news, key, i) <= news.len(),
    decreases olds.len() - i,
{
    if i < olds.len() && i < news.len() && key_of(olds[i], key) == key_of(news[i], key) {
        lemma_lead_bound(olds, news, key, i + 1);
    }
}

/// Counts the leading pairs of children with the same key.
fn lead_count(olds: &Vec<Node>, news: &Vec<Node>, key: &Att) -> (r: usize)
    ensures
        r == lead(olds@, news@, (*key)@, 0),
        r <= olds@.len(),
        r <= news@.len(),
{
    let mut i: usize = 0;
    while i < olds.len() && i < news.len() && same_key(&olds[i], &news[i], key)
        invariant
            i <= olds@.len(),
            i <= news@.len(),
            lead(olds@, news@, (*key)@, 0) == lead(olds@, news@, (*key)@, i as int),
        decreases olds@.len() - i,
    {
        i += 1;
    }
    i
}

/// Counts the trailing pairs of children with the same key, clear of the first `l` old ones.
fn trail_count(olds: &Vec<Node>, news: &Vec<Node>, key: &Att, l: usize) -> (r: usize)
    ensures
        r == trail(olds@, news@, (*key)@, l as int, 0),
        r <= olds@.len(),
        r <= news@.len(),
        l <= olds@.len() ==> r <= olds@.len() - l,
{
    let mut t: usize = 0;
    while t < olds.len() && t < news.len() && olds.len() - 1 - t >= l && news.len() - 1 - t >= l
        && same_key(
        &olds[olds.len() - 1 - t],
        &news[news.len() - 1 - t],
        key,
    )
        invariant
            t <= olds@.len(),
            t <= news@.len(),
            l <= olds@.len() ==> t <= olds@.len() - l,
            trail(olds@, news@, (*key)@, l as int, 0) == trail(olds@, news@, (*key)@, l as int, t as int),
        decreases olds@.len() - t,
    {
        t += 1;
    }
    t
}

/// The diffs of the first `n` pairs of children, or `None` where one of them panics.
fn leading_diffs<'a, Skip: Fn(&Node, &Node) -> bool, Rep: Fn(&Node, &Node) -> bool>(
    olds: &'a Vec<Node>,
    news: &'a Vec<Node>,
    n: usize,
    key: &Att,
    path: &TreePath,
    skip: &Skip,
    rep: &Rep,
) -> (r: Option<Vec<Patch<'a>>>)
    requires
        well_behaved(*skip),
        well_behaved(*rep),
        n <= olds@.len(),
        n <= news@.len(),
    ensures
        ({
            let d = pairs_diff(olds@, news@, path@, (*key)@, decision(*skip), decision(*rep), n as int);
            &&& r is Some <==> d is Some
            &&& r matches Some(v) ==> patches_view(v@) == d->0
        }),
    decreases olds, 0nat,
{
    let ghost sk = decision(*skip);
    let ghost rp = decision(*rep);
    let mut patches: Vec<Patch<'a>> = Vec::new();
    let mut index: usize = 0;
    while index < n
        invariant
            well_behaved(*skip),
            well_behaved(*rep),
            sk == decision(*skip),
            rp == decision(*rep),
            index <= n,
            n <= olds@.len(),
            n <= news@.len(),
            pairs_diff(olds@, news@, path@, (*key)@, sk, rp, index as int) is Some,
            patches_view(patches@) == pairs_diff(
                olds@,
                news@,
                path@,
                (*key)@,
                sk,
                rp,
                index as int,
            )->0,
        decreases n - index,
    {
        let child_path = path.traverse(index);
        let ghost before = patches@;
        let mut more = match try_diff_recursive(&olds[index], &news[index], &child_path, key, skip, rep) {
            Some(v) => v,
            None => {
                proof {
                    if pairs_diff(olds@, news@, path@, (*key)@, sk, rp, n as int) is Some {
                        lemma_pairs_diff_prefix(olds@, news@, path@, (*key)@, sk, rp, index + 1, n as int);
                    }
                }
                return None;
            },
        };
        let ghost added = more@;
        patches.append(&mut more);
        proof {
            lemma_patches_view_add(before, added);
        }
        index += 1;
    }
    Some(patches)
}

/// The diffs of the last `n` pairs of children, the last pair first, or `None` where one of
/// them panics.
fn trailing_diffs<'a, Skip: Fn(&Node, &Node) -> bool, Rep: Fn(&Node, &Node) -> bool>(
    olds: &'a Vec<Node>,
    news: &'a Vec<Node>,
    n: usize,
    key: &Att,
    path: &TreePath,
    skip: &Skip,
    rep: &Rep,
) -> (r: Option<Vec<Patch<'a>>>)
    requires
        well_behaved(*skip),
        well_behaved(*rep),
        n <= olds@.len(),
        n <= news@.len(),
    ensures
        ({
            let d = trail_diff(olds@, news@, path@, (*key)@, decision(*skip), decision(*rep), n as int);
            &&& r is Some <==> d is Some
            &&& r matches Some(v) ==> patches_view(v@) == d->0
        }),
    decreases olds, 0nat,
{
    let ghost sk = decision(*skip);
    let ghost rp = decision(*rep);
    let ghost whole = trail_diff(olds@, news@, path@, (*key)@, sk, rp, n as int);
    let mut patches: Vec<Patch<'a>> = Vec::new();
    let mut m: usize = n;
    assert(opt_concat(Some(patches_view(patches@)), whole) == whole) by {
        if let Some(w) = whole {
            assert(Seq::<PatchModel>::empty() + w =~= w);
        }
    }
    while m > 0
        invariant
            well_behaved(*skip),
            well_behaved(*rep),
            sk == decision(*skip),
            rp == decision(*rep),
            m <= n,
            n <= olds@.len(),
            n <= news@.len(),
            whole == trail_diff(olds@, news@, path@, (*key)@, sk, rp, n as int),
            opt_concat(
                Some(patches_view(patches@)),
                trail_diff(olds@, news@, path@, (*key)@, sk, rp, m as int),
            ) == whole,
        decreases m,
    {
        let oi = olds.len() - m;
        let ni = news.len() - m;
        let child_path = path.traverse(oi);
        let ghost before = patches@;
        let ghost rest = trail_diff(olds@, news@, path@, (*key)@, sk, rp, m - 1);
        let mut more = match try_diff_recursive(&olds[oi], &news[ni], &child_path, key, skip, rep) {
            Some(v) => v,
            None => {
                return None;
            },
        };
        let ghost added = more@;
        patches.append(&mut more);
        proof {
            lemma_patches_view_add(before, added);
            if let Some(x) = rest {
                assert(patches_view(before) + (patches_view(added) + x) =~= patches_view(before)
                    + patches_view(added) + x);
            }
        }
        m -= 1;
    }
    assert(opt_concat(Some(patches_view(patches@)), Some(Seq::<PatchModel>::empty())) == Some(
        patches_view(patches@) + Seq::<PatchModel>::empty(),
    ));
    assert(patches_view(patches@) + Seq::<PatchModel>::empty() =~= patches_view(patches@));
    Some(patches)
}

/// Matches the children from both ends: the patches of the matched pairs, and the numbers of
/// leading and trailing pairs when children are left in the middle; `None` where the diff of a
/// matched pair panics.
fn diff_keyed_ends<'a, Skip: Fn(&Node, &Node) -> bool, Rep: Fn(&Node, &Node) -> bool>(
    old_element: &'a Element,
    new_element: &'a Element,
    key: &Att,
    path: &TreePath,
    skip: &Skip,
    rep: &Rep,
) -> (r: Option<(Vec<Patch<'a>>, Option<(usize, usize)>)>)
    requires
        well_behaved(*skip),
        well_behaved(*rep),
    ensures
        ({
            let d = ends_patches(
                old_element.tag,
                old_element.children@,
                new_element.children@,
                path@,
                (*key)@,
                decision(*skip),
                decision(*rep),
            );
            let o = ends_offsets(old_element.children@, new_element.children@, (*key)@);
            &&& r is Some <==> d is Some
            &&& r matches Some(v) ==> {
                &&& patches_view(v.0@) == d->0
                &&& v.1 == (match o {
                    Some((l, t)) => Some((l as usize, t as usize)),
                    None => None,
                })
                &&& v.1 matches Some((l, t)) ==> l < old_element.children@.len() && l
                    < new_element.children@.len() && t <= old_element.children@.len() - l && t
                    <= new_element.children@.len() && o == Some((l as int, t as int))
            }
        }),
    decreases old_element, 0nat,
{
    let ghost sk = decision(*skip);
    let ghost rp = decision(*rep);
    let olds = &old_element.children;
    let news = &new_element.children;
    let left = lead_count(olds, news, key);
    let mut patches = match leading_diffs(olds, news, left, key, path, skip, rep) {
        Some(v) => v,
        None => {
            return None;
        },
    };
    if left == olds.len() {
        if left < news.len() {
            let ghost before = patches@;
            patches.push(
                Patch::append_children(
                    &old_element.tag,
                    copy_path(path),
                    node_refs(news, left, news.len()),
                ),
            );
            assert(patches_view(patches@) =~= patches_view(before) + seq![
                PatchModel::AppendChildren {
                    tag: old_element.tag,
                    patch_path: path@,
                    children: news@.skip(left as int),
                },
            ]);
        } else {
            assert(patches_view(patches@) + Seq::<PatchModel>::empty() =~= patches_view(patches@));
        }
        return Some((patches, None));
    }
    if left == news.len() {
        push_removes(&mut patches, olds, path, left, olds.len());
        return Some((patches, None));
    }
    let right = trail_count(olds, news, key, left);
    let ghost before = patches@;
    let mut more = match trailing_diffs(olds, news, right, key, path, skip, rep) {
        Some(v) => v,
        None => {
            return None;
        },
    };
    let ghost added = more@;
    patches.append(&mut more);
    proof {
        lemma_patches_view_add(before, added);
    }
    Some((patches, Some((left, right))))
}

/// Each position of the map marks an unmatched child or is that of an old child.
pub open spec fn map_ok(map: Seq<usize>, oc: Seq<Node>) -> bool {
    forall|j: int| 0 <= j < map.len() ==> #[trigger] map[j] == unmatched() || (map[j] as int) < oc.len()
}

/// A found position holds the key, and no earlier position from `i` on does.
proof fn lemma_first_with_key(oc: Seq<Node>, key: Seq<char>, k: Seq<Seq<char>>, i: int)
    requires
        0 <= i,
    ensures
        first_with_key(oc, key, k, i) matches Some(p) ==> i <= p < oc.len() && key_of(oc[p], key)
            == Some(k),
        first_with_key(oc, key, k, i) is None ==> forall|p: int|
            i <= p < oc.len() ==> key_of(#[trigger] oc[p], key) != Some(k),
    decreases oc.len() - i,
{
    if i < oc.len() && key_of(oc[i], key) != Some(k) {
        lemma_first_with_key(oc, key, k, i + 1);
    }
}

/// The map of the middle holds, for each new child, the position of the first old child with
/// its key, or marks it unmatched.
proof fn lemma_index_map_ok(oc: Seq<Node>, nc: Seq<Node>, key: Seq<char>)
    requires
        oc.len() <= usize::MAX,
    ensures
        map_ok(index_map(oc, nc, key), oc),
{
    let map = index_map(oc, nc, key);
    assert forall|j: int| 0 <= j < map.len() implies #[trigger] map[j] == unmatched() || (
    map[j] as int) < oc.len() by {
        if let Some(k) = key_of(nc[j], key) {
            lemma_first_with_key(oc, key, k, 0);
        }
    }
}

/// The first old position from `i` on with the key `k` is `p` when `p` has it and none before
/// it does.
proof fn lemma_first_with_key_at(oc: Seq<Node>, key: Seq<char>, k: Seq<Seq<char>>, i: int, p: int)
    requires
        0 <= i <= p < oc.len(),
        key_of(oc[p], key) == Some(k),
        forall|q: int| i <= q < p ==> key_of(#[trigger] oc[q], key) != Some(k),
    ensures
        first_with_key(oc, key, k, i) == Some(p),
    decreases p - i,
{
    if i < p {
        lemma_first_with_key_at(oc, key, k, i + 1, p);
    }
}

/// No old position from `i` on has the key `k` when none has it.
proof fn lemma_first_with_key_none(oc: Seq<Node>, key: Seq<char>, k: Seq<Seq<char>>, i: int)
    requires
        0 <= i,
        forall|q: int| i <= q < oc.len() ==> key_of(#[trigger] oc[q], key) != Some(k),
    ensures
        first_with_key(oc, key, k, i) is None,
    decreases oc.len() - i,
{
    if i < oc.len() {
        lemma_first_with_key_none(oc, key, k, i + 1);
    }
}

/// Builds the map of the middle: for each new child, the position of the first old child with
/// its key, or the mark of an unmatched child; and tells whether some new child is matched. The
/// keys of the old children are first put in an ordered map from their positions, which is
/// searched in order for the key of each new child.
fn build_index_map(
    olds: &Vec<Node>,
    news: &Vec<Node>,
    l: usize,
    oe: usize,
    ne: usize,
    key: &Att,
) -> (r: (Vec<usize>, bool))
    requires
        l <= oe <= olds@.len(),
        l <= ne <= news@.len(),
    ensures
        r.0@ == index_map(olds@.subrange(l as int, oe as int), news@.subrange(l as int, ne as int), (*key)@),
        r.1 == any_shared(olds@.subrange(l as int, oe as int), news@.subrange(l as int, ne as int), (*key)@),
{
    let ghost oc = olds@.subrange(l as int, oe as int);
    let ghost nc = news@.subrange(l as int, ne as int);
    let ghost full = index_map(oc, nc, (*key)@);
    let old_key_to_old_index = build_keys_by_position(olds, l, oe, key);
    let mut map: Vec<usize> = Vec::new();
    let mut shared = false;
    let mut j: usize = 0;
    while j < ne - l
        invariant
            l <= oe <= olds@.len(),
            l <= ne <= news@.len(),
            oc == olds@.subrange(l as int, oe as int),
            nc == news@.subrange(l as int, ne as int),
            full == index_map(oc, nc, (*key)@),
            keys_by_position(old_key_to_old_index@, olds@, l as int, oe as int, (*key)@),
            j <= nc.len(),
            map@ == full.take(j as int),
            shared == exists|jj: int| 0 <= jj < j && key_of(#[trigger] nc[jj], (*key)@) is Some && first_with_key(oc, (*key)@, key_of(nc[jj], (*key)@)->0, 0) is Some,
        decreases nc.len() - j,
    {
        let new_key = node_key(&news[l + j], key);
        let mut found: Option<usize> = None;
        if let Some(values) = &new_key {
            let ghost k = key_of(nc[j as int], (*key)@)->0;
            found = first_entry_with_key(&old_key_to_old_index, values, None);
            proof {
                match found {
                    Some(p) => {
                        assert forall|q: int| 0 <= q < p implies key_of(#[trigger] oc[q], (*key)@) != Some(k) by {
                            if key_of(oc[q], (*key)@) == Some(k) {
                                assert(oc[q] == olds@[l + q]);
                                assert(old_key_to_old_index@.contains_key(q as usize));
                            }
                        }
                        lemma_first_with_key_at(oc, (*key)@, k, 0, p as int);
                    },
                    None => {
                        assert forall|q: int| 0 <= q < oc.len() implies key_of(#[trigger] oc[q], (*key)@) != Some(k) by {
                            if key_of(oc[q], (*key)@) == Some(k) {
                                assert(oc[q] == olds@[l + q]);
                                assert(old_key_to_old_index@.contains_key(q as usize));
                            }
                        }
                        lemma_first_with_key_none(oc, (*key)@, k, 0);
                    },
                }
                assert(found == (match first_with_key(oc, (*key)@, k, 0) {
                    Some(p) => Some(p as usize),
                    None => None,
                }));
            }
        }
        let ghost before = map@;
        match found {
            Some(i) => {
                map.push(i);
                shared = true;
            },
            None => {
                map.push(u32::MAX as usize);
            },
        }
        proof {
            assert(map@ =~= full.take(j + 1));
        }
        j += 1;
    }
    proof {
        assert(full.take(nc.len() as int) =~= full);
        assert(shared == any_shared(oc, nc, (*key)@)) by {
            if shared {
                let jj = choose|jj: int| 0 <= jj < j && key_of(#[trigger] nc[jj], (*key)@) is Some && first_with_key(oc, (*key)@, key_of(nc[jj], (*key)@)->0, 0) is Some;
                let k = key_of(nc[jj], (*key)@)->0;
                lemma_first_with_key(oc, (*key)@, k, 0);
                let i = first_with_key(oc, (*key)@, k, 0)->0;
                assert(key_of(nc[jj], (*key)@) == key_of(oc[i], (*key)@));
            }
            if any_shared(oc, nc, (*key)@) {
                let (jj, i) = choose|jj: int, i: int|
                    0 <= jj < nc.len() && 0 <= i < oc.len() && key_of(#[trigger] nc[jj], (*key)@) is Some && key_of(
                        nc[jj],
                        (*key)@,
                    ) == key_of(#[trigger] oc[i], (*key)@);
                let k = key_of(nc[jj], (*key)@)->0;
                lemma_first_with_key(oc, (*key)@, k, 0);
            }
        }
    }
    (map, shared)
}

/// Pushes the removals of the old children of the middle whose key no new child has.
fn push_removals<'a>(
    patches: &mut Vec<Patch<'a>>,
    olds: &'a Vec<Node>,
    news: &Vec<Node>,
    l: usize,
    oe: usize,
    ne: usize,
    key: &Att,
    path: &TreePath,
)
    requires
        l <= oe <= olds@.len(),
        l <= ne <= news@.len(),
    ensures
        patches_view(final(patches)@) == patches_view(old(patches)@) + removals(
            olds@.subrange(l as int, oe as int),
            news@.subrange(l as int, ne as int),
            (*key)@,
            path@,
            l as int,
            oe - l,
        ),
{
    let ghost oc = olds@.subrange(l as int, oe as int);
    let ghost nc = news@.subrange(l as int, ne as int);
    let ghost start = patches@;
    let mut index: usize = 0;
    while index < oe - l
        invariant
            l <= oe <= olds@.len(),
            l <= ne <= news@.len(),
            oc == olds@.subrange(l as int, oe as int),
            nc == news@.subrange(l as int, ne as int),
            index <= oc.len(),
            patches_view(patches@) == patches_view(start) + removals(
                oc,
                nc,
                (*key)@,
                path@,
                l as int,
                index as int,
            ),
        decreases oc.len() - index,
    {
        let old_key = node_key(&olds[l + index], key);
        let mut go = true;
        if old_key.is_some() {
            let mut j: usize = 0;
            while j < ne - l && !same_key(&olds[l + index], &news[l + j], key)
                invariant
                    l <= oe <= olds@.len(),
                    l <= ne <= news@.len(),
                    oc == olds@.subrange(l as int, oe as int),
                    nc == news@.subrange(l as int, ne as int),
                    index < oc.len(),
                    j <= nc.len(),
                    forall|jj: int| 0 <= jj < j ==> key_of(#[trigger] nc[jj], (*key)@) != key_of(oc[index as int], (*key)@),
                decreases nc.len() - j,
            {
                j += 1;
            }
            go = j == ne - l;
            proof {
                if !go {
                    assert(key_of(nc[j as int], (*key)@) == key_of(oc[index as int], (*key)@));
                }
            }
        }
        assert(go == removed(oc, nc, (*key)@, index as int));
        let ghost before = patches@;
        if go {
            patches.push(Patch::remove_node(olds[l + index].tag(), path.traverse(l + index)));
            assert(patches_view(patches@) =~= patches_view(before).push(
                remove_patch(oc[index as int], path@.push((l + index) as usize)),
            ));
        }
        assert(patches_view(patches@) =~= patches_view(start) + removals(
            oc,
            nc,
            (*key)@,
            path@,
            l as int,
            index + 1,
        ));
        index += 1;
    }
}

/// A defined scan has every shorter scan from the same start defined.
proof fn lemma_scan_prefix(
    oc: Seq<Node>,
    nc: Seq<Node>,
    map: Seq<usize>,
    l: int,
    path: Seq<usize>,
    key: Seq<char>,
    sk: spec_fn(Node, Node) -> bool,
    rp: spec_fn(Node, Node) -> bool,
    a: int,
    k: int,
    b: int,
)
    requires
        a <= k <= b,
        scan(oc, nc, map, l, path, key, sk, rp, a, b).0 is Some,
    ensures
        scan(oc, nc, map, l, path, key, sk, rp, a, k).0 is Some,
    decreases b - k,
{
    if k < b {
        lemma_scan_prefix(oc, nc, map, l, path, key, sk, rp, a, k, b - 1);
    }
}

/// Scans the new children of the middle from `a` to `b`, excluded: the diffs of those that an
/// old child matches, the new children that none matches, and the paths of the matching old
/// children; `None` where one of the diffs panics.
fn scan_exec<'a, Skip: Fn(&Node, &Node) -> bool, Rep: Fn(&Node, &Node) -> bool>(
    olds: &'a Vec<Node>,
    news: &'a Vec<Node>,
    map: &Vec<usize>,
    l: usize,
    oe: usize,
    ne: usize,
    a: usize,
    b: usize,
    key: &Att,
    path: &TreePath,
    skip: &Skip,
    rep: &Rep,
) -> (r: Option<(Vec<Patch<'a>>, Vec<&'a Node>, Vec<TreePath>)>)
    requires
        well_behaved(*skip),
        well_behaved(*rep),
        l <= oe <= olds@.len(),
        l <= ne <= news@.len(),
        a <= b <= ne - l,
        map@.len() == ne - l,
        map_ok(map@, olds@.subrange(l as int, oe as int)),
    ensures
        ({
            let s = scan(
                olds@.subrange(l as int, oe as int),
                news@.subrange(l as int, ne as int),
                map@,
                l as int,
                path@,
                (*key)@,
                decision(*skip),
                decision(*rep),
                a as int,
                b as int,
            );
            &&& r is Some <==> s.0 is Some
            &&& r matches Some(v) ==> {
                &&& patches_view(v.0@) == s.0->0
                &&& nodes_of(v.1@) == s.1
                &&& paths_of(v.2@) == s.2
            }
        }),
    decreases olds, 1nat,
{
    let ghost sk = decision(*skip);
    let ghost rp = decision(*rep);
    let ghost oc = olds@.subrange(l as int, oe as int);
    let ghost nc = news@.subrange(l as int, ne as int);
    let mut patches: Vec<Patch<'a>> = Vec::new();
    let mut nodes: Vec<&'a Node> = Vec::new();
    let mut paths: Vec<TreePath> = Vec::new();
    let mut j: usize = a;
    while j < b
        invariant
            well_behaved(*skip),
            well_behaved(*rep),
            sk == decision(*skip),
            rp == decision(*rep),
            l <= oe <= olds@.len(),
            l <= ne <= news@.len(),
            oc == olds@.subrange(l as int, oe as int),
            nc == news@.subrange(l as int, ne as int),
            a <= j <= b,
            b <= ne - l,
            map@.len() == ne - l,
            map_ok(map@, oc),
            scan(oc, nc, map@, l as int, path@, (*key)@, sk, rp, a as int, j as int).0 is Some,
            patches_view(patches@) == scan(oc, nc, map@, l as int, path@, (*key)@, sk, rp, a as int, j as int).0->0,
            nodes_of(nodes@) == scan(oc, nc, map@, l as int, path@, (*key)@, sk, rp, a as int, j as int).1,
            paths_of(paths@) == scan(oc, nc, map@, l as int, path@, (*key)@, sk, rp, a as int, j as int).2,
        decreases b - j,
    {
        let oi = map[j];
        assert(map@[j as int] == unmatched() || (oi as int) < oc.len());
        if oi == u32::MAX as usize {
            let ghost before = nodes@;
            nodes.push(&news[l + j]);
            assert(nodes_of(nodes@) =~= nodes_of(before).push(nc[j as int]));
        } else {
            assert(diff_at(oc, nc, oi, j as int, path@, (*key)@, sk, rp) == spec_diff(
                olds@[l + oi],
                news@[l + j],
                path@,
                (*key)@,
                sk,
                rp,
            ));
            let ghost before = patches@;
            let mut more = match try_diff_recursive(&olds[l + oi], &news[l + j], path, key, skip, rep) {
                Some(v) => v,
                None => {
                    proof {
                        if scan(oc, nc, map@, l as int, path@, (*key)@, sk, rp, a as int, b as int).0 is Some {
                            lemma_scan_prefix(oc, nc, map@, l as int, path@, (*key)@, sk, rp, a as int, j + 1, b as int);
                        }
                    }
                    return None;
                },
            };
            let ghost added = more@;
            patches.append(&mut more);
            proof {
                lemma_patches_view_add(before, added);
            }
            let ghost pbefore = paths@;
            paths.push(path.traverse(l + oi));
            assert(paths_of(paths@) =~= paths_of(pbefore).push(path@.push((l + oi) as usize)));
        }
        j += 1;
    }
    Some((patches, nodes, paths))
}

/// The positions of the subsequence are positions of the map, in increasing order, and the
/// values of the map at them increase.
pub open spec fn lis_ok(lis: Seq<usize>, map: Seq<usize>) -> bool {
    &&& forall|k: int| 0 <= k < lis.len() ==> (#[trigger] lis[k] as int) < map.len()
    &&& forall|a: int, b: int|
        0 <= a < b < lis.len() ==> #[trigger] lis[a] < #[trigger] lis[b] && map[lis[a] as int]
            < map[lis[b] as int]
}

/// The subsequence of the map, in increasing order, without its last position when that one
/// marks an unmatched child.
fn lis_order_exec(map: &Vec<usize>) -> (r: Vec<usize>)
    ensures
        r@ == lis_order(map@),
        lis_ok(r@, map@),
{
    let raw = longest_increasing(map);
    let mut asc: Vec<usize> = Vec::new();
    let mut k: usize = raw.len();
    while k > 0
        invariant
            k <= raw@.len(),
            asc@.len() == raw@.len() - k,
            forall|t: int| 0 <= t < asc@.len() ==> asc@[t] == raw@[raw@.len() - 1 - t],
        decreases k,
    {
        k -= 1;
        asc.push(raw[k]);
    }
    assert(asc@ =~= raw@.reverse());
    if asc.len() > 0 && map[asc[asc.len() - 1]] == u32::MAX as usize {
        asc.pop();
    }
    proof {
        assert forall|a: int, b: int| 0 <= a < b < asc@.len() implies #[trigger] asc@[a]
            < #[trigger] asc@[b] && map@[asc@[a] as int] < map@[asc@[b] as int] by {
            let ra = raw@.len() - 1 - a;
            let rb = raw@.len() - 1 - b;
            assert(asc@[a] == raw@[ra]);
            assert(asc@[b] == raw@[rb]);
        }
    }
    asc
}

/// A refused diff along the subsequence stays refused when more pairs follow.
proof fn lemma_lis_diffs_none(
    oc: Seq<Node>,
    nc: Seq<Node>,
    map: Seq<usize>,
    lis: Seq<usize>,
    path: Seq<usize>,
    key: Seq<char>,
    sk: spec_fn(Node, Node) -> bool,
    rp: spec_fn(Node, Node) -> bool,
    k: int,
    n: int,
)
    requires
        0 <= k <= n,
        lis_diffs(oc, nc, map, lis, path, key, sk, rp, k) is None,
    ensures
        lis_diffs(oc, nc, map, lis, path, key, sk, rp, n) is None,
    decreases n - k,
{
    if k < n {
        lemma_lis_diffs_none(oc, nc, map, lis, path, key, sk, rp, k, n - 1);
    }
}

/// The diffs of the pairs matched along the subsequence, when every old position is in range.
fn lis_diffs_exec<'a, Skip: Fn(&Node, &Node) -> bool, Rep: Fn(&Node, &Node) -> bool>(
    olds: &'a Vec<Node>,
    news: &'a Vec<Node>,
    map: &Vec<usize>,
    lis: &Vec<usize>,
    l: usize,
    oe: usize,
    ne: usize,
    key: &Att,
    path: &TreePath,
    skip: &Skip,
    rep: &Rep,
) -> (r: Option<Vec<Patch<'a>>>)
    requires
        well_behaved(*skip),
        well_behaved(*rep),
        l <= oe <= olds@.len(),
        l <= ne <= news@.len(),
        map@.len() == ne - l,
        lis_ok(lis@, map@),
    ensures
        ({
            let d = lis_diffs(
                olds@.subrange(l as int, oe as int),
                news@.subrange(l as int, ne as int),
                map@,
                lis@,
                path@,
                (*key)@,
                decision(*skip),
                decision(*rep),
                lis@.len() as int,
            );
            &&& r is Some <==> d is Some
            &&& r matches Some(v) ==> patches_view(v@) == d->0
        }),
    decreases olds, 2nat,
{
    let ghost sk = decision(*skip);
    let ghost rp = decision(*rep);
    let ghost oc = olds@.subrange(l as int, oe as int);
    let ghost nc = news@.subrange(l as int, ne as int);
    let ghost n = lis@.len() as int;
    let mut patches: Vec<Patch<'a>> = Vec::new();
    let mut k: usize = 0;
    while k < lis.len()
        invariant
            well_behaved(*skip),
            well_behaved(*rep),
            sk == decision(*skip),
            rp == decision(*rep),
            l <= oe <= olds@.len(),
            l <= ne <= news@.len(),
            oc == olds@.subrange(l as int, oe as int),
            nc == news@.subrange(l as int, ne as int),
            map@.len() == ne - l,
            lis_ok(lis@, map@),
            n == lis@.len(),
            k <= n,
            lis_diffs(oc, nc, map@, lis@, path@, (*key)@, sk, rp, k as int) is Some,
            patches_view(patches@) == lis_diffs(oc, nc, map@, lis@, path@, (*key)@, sk, rp, k as int)->0,
        decreases n - k,
    {
        let idx = lis[k];
        assert((lis@[k as int] as int) < map@.len());
        let oi = map[idx];
        if oi >= oe - l {
            proof {
                assert(diff_at(oc, nc, oi, idx as int, path@, (*key)@, sk, rp) is None);
                lemma_lis_diffs_none(oc, nc, map@, lis@, path@, (*key)@, sk, rp, k + 1, n);
            }
            return None;
        }
        assert(diff_at(oc, nc, oi, idx as int, path@, (*key)@, sk, rp) == spec_diff(
            olds@[l + oi],
            news@[l + idx],
            path@,
            (*key)@,
            sk,
            rp,
        ));
        let ghost before = patches@;
        let mut more = match try_diff_recursive(&olds[l + oi], &news[l + idx], path, key, skip, rep) {
            Some(v) => v,
            None => {
                proof {
                    lemma_lis_diffs_none(oc, nc, map@, lis@, path@, (*key)@, sk, rp, k + 1, n);
                }
                return None;
            },
        };
        let ghost added = more@;
        patches.append(&mut more);
        proof {
            lemma_patches_view_add(before, added);
        }
        k += 1;
    }
    Some(patches)
}

/// The patches of the new children after the last of the subsequence.
#[verifier::rlimit(40)]
#[verifier::spinoff_prover]
fn after_last_exec<'a, Skip: Fn(&Node, &Node) -> bool, Rep: Fn(&Node, &Node) -> bool>(
    olds: &'a Vec<Node>,
    news: &'a Vec<Node>,
    map: &Vec<usize>,
    lis: &Vec<usize>,
    l: usize,
    oe: usize,
    ne: usize,
    key: &Att,
    path: &TreePath,
    skip: &Skip,
    rep: &Rep,
) -> (r: Option<Vec<Patch<'a>>>)
    requires
        well_behaved(*skip),
        well_behaved(*rep),
        l <= oe <= olds@.len(),
        l < ne <= news@.len(),
        map@.len() == ne - l,
        map_ok(map@, olds@.subrange(l as int, oe as int)),
        lis@.len() > 0,
        lis_ok(lis@, map@),
    ensures
        ({
            let d = after_last(
                olds@.subrange(l as int, oe as int),
                news@.subrange(l as int, ne as int),
                map@,
                lis@,
                l as int,
                path@,
                (*key)@,
                decision(*skip),
                decision(*rep),
            );
            &&& r is Some <==> d is Some
            &&& r matches Some(v) ==> patches_view(v@) == d->0
        }),
    decreases olds, 2nat,
{
    let ghost sk = decision(*skip);
    let ghost rp = decision(*rep);
    let ghost oc = olds@.subrange(l as int, oe as int);
    let ghost nc = news@.subrange(l as int, ne as int);
    let last = lis[lis.len() - 1];
    assert((lis@[lis@.len() - 1] as int) < map@.len());
    if last < ne - l - 1 {
        let ghost s = scan(oc, nc, map@, l as int, path@, (*key)@, sk, rp, last + 1, nc.len() as int);
        let (d, nodes, paths) = match scan_exec(olds, news, map, l, oe, ne, last + 1, ne - l, key, path, skip, rep) {
            Some(v) => v,
            None => {
                return None;
            },
        };
        let mut patches = d;
        if paths.len() > 0 {
            if l + last >= oe - l {
                return None;
            }
            let ghost before = patches@;
            patches.push(Patch::move_after_node(olds[l + (l + last)].tag(), path.traverse(l + last), paths));
            assert(patches_view(patches@) =~= patches_view(before) + seq![
                PatchModel::MoveAfterNode {
                    tag: tag_of(oc[l + last]),
                    patch_path: path@.push((l + last) as usize),
                    nodes_path: s.2,
                },
            ]);
        } else {
            assert(patches_view(patches@) + Seq::<PatchModel>::empty() =~= patches_view(patches@));
        }
        let oi = map[last];
        if oi >= oe - l {
            return None;
        }
        let ghost mid = patches@;
        if nodes.len() > 0 {
            patches.push(Patch::insert_after_node(olds[l + oi].tag(), path.traverse(l + oi), nodes));
            assert(patches_view(patches@) =~= patches_view(mid) + seq![
                PatchModel::InsertAfterNode {
                    tag: tag_of(oc[oi as int]),
                    patch_path: path@.push((l + oi) as usize),
                    nodes: s.1,
                },
            ]);
        } else {
            assert(patches_view(patches@) + Seq::<PatchModel>::empty() =~= patches_view(patches@));
        }
        proof {
            let x = Seq::<PatchModel>::empty();
            assert(s.0->0 + (x + x) =~= s.0->0);
        }
        Some(patches)
    } else {
        let patches: Vec<Patch<'a>> = Vec::new();
        assert(patches_view(patches@) =~= Seq::<PatchModel>::empty());
        Some(patches)
    }
}

/// A refused gap stays refused when more gaps follow, and a defined sequence of gaps has every
/// shorter one defined.
proof fn lemma_gaps_prefix(
    oc: Seq<Node>,
    nc: Seq<Node>,
    map: Seq<usize>,
    lis: Seq<usize>,
    l: int,
    path: Seq<usize>,
    key: Seq<char>,
    sk: spec_fn(Node, Node) -> bool,
    rp: spec_fn(Node, Node) -> bool,
    k: int,
    n: int,
)
    requires
        0 <= k <= n,
    ensures
        gaps(oc, nc, map, lis, l, path, key, sk, rp, n) is Some ==> gaps(oc, nc, map, lis, l, path, key, sk, rp, k) is Some,
    decreases n - k,
{
    if k < n {
        lemma_gaps_prefix(oc, nc, map, lis, l, path, key, sk, rp, k, n - 1);
    }
}

/// The patches of the new children between the last of the subsequence and each position
/// before it.
#[verifier::rlimit(40)]
fn gaps_exec<'a, Skip: Fn(&Node, &Node) -> bool, Rep: Fn(&Node, &Node) -> bool>(
    olds: &'a Vec<Node>,
    news: &'a Vec<Node>,
    map: &Vec<usize>,
    lis: &Vec<usize>,
    l: usize,
    oe: usize,
    ne: usize,
    key: &Att,
    path: &TreePath,
    skip: &Skip,
    rep: &Rep,
) -> (r: Option<Vec<Patch<'a>>>)
    requires
        well_behaved(*skip),
        well_behaved(*rep),
        l <= oe <= olds@.len(),
        l <= ne <= news@.len(),
        map@.len() == ne - l,
        map_ok(map@, olds@.subrange(l as int, oe as int)),
        lis@.len() > 0,
        lis_ok(lis@, map@),
    ensures
        ({
            let d = gaps(
                olds@.subrange(l as int, oe as int),
                news@.subrange(l as int, ne as int),
                map@,
                lis@,
                l as int,
                path@,
                (*key)@,
                decision(*skip),
                decision(*rep),
                lis@.len() - 1,
            );
            &&& r is Some <==> d is Some
            &&& r matches Some(v) ==> patches_view(v@) == d->0
        }),
    decreases olds, 2nat,
{
    let ghost sk = decision(*skip);
    let ghost rp = decision(*rep);
    let ghost oc = olds@.subrange(l as int, oe as int);
    let ghost nc = news@.subrange(l as int, ne as int);
    let ghost n = lis@.len() - 1;
    let last = lis[lis.len() - 1];
    assert((lis@[lis@.len() - 1] as int) < map@.len());
    let mut patches: Vec<Patch<'a>> = Vec::new();
    let mut m: usize = 1;
    while m < lis.len()
        invariant
            well_behaved(*skip),
            well_behaved(*rep),
            sk == decision(*skip),
            rp == decision(*rep),
            l <= oe <= olds@.len(),
            l <= ne <= news@.len(),
            oc == olds@.subrange(l as int, oe as int),
            nc == news@.subrange(l as int, ne as int),
            map@.len() == ne - l,
            map_ok(map@, oc),
            lis@.len() > 0,
            lis_ok(lis@, map@),
            n == lis@.len() - 1,
            last == lis@[n],
            (last as int) < nc.len(),
            1 <= m <= lis@.len(),
            gaps(oc, nc, map@, lis@, l as int, path@, (*key)@, sk, rp, m - 1) is Some,
            patches_view(patches@) == gaps(oc, nc, map@, lis@, l as int, path@, (*key)@, sk, rp, m - 1)->0,
        decreases lis@.len() - m,
    {
        let next = lis[lis.len() - 1 - m];
        assert(lis@[lis@.len() - 1 - m] < lis@[n]);
        let ghost g = gap(oc, nc, map@, last as int, next as int, l as int, path@, (*key)@, sk, rp);
        if last - next > 1 {
            let ghost s = scan(oc, nc, map@, l as int, path@, (*key)@, sk, rp, next + 1, last as int);
            let (d, nodes, _paths) = match scan_exec(olds, news, map, l, oe, ne, next + 1, last, key, path, skip, rep) {
                Some(v) => v,
                None => {
                    proof {
                        assert(g is None);
                        lemma_gaps_prefix(oc, nc, map@, lis@, l as int, path@, (*key)@, sk, rp, m as int, n);
                    }
                    return None;
                },
            };
            let ghost before = patches@;
            let mut d = d;
            patches.append(&mut d);
            let ghost mid = patches@;
            if nodes.len() > 0 {
                if last >= oe - l {
                    proof {
                        assert(g is None);
                        lemma_gaps_prefix(oc, nc, map@, lis@, l as int, path@, (*key)@, sk, rp, m as int, n);
                    }
                    return None;
                }
                patches.push(Patch::insert_before_node(olds[l + last].tag(), path.traverse(l + last), nodes));
                assert(patches_view(patches@) =~= patches_view(mid) + seq![
                    PatchModel::InsertBeforeNode {
                        tag: tag_of(oc[last as int]),
                        patch_path: path@.push((l + last) as usize),
                        nodes: s.1,
                    },
                ]);
            } else {
                assert(patches_view(patches@) + Seq::<PatchModel>::empty() =~= patches_view(patches@));
            }
            assert(patches_view(patches@) =~= patches_view(before) + g->0);
        } else {
            assert(patches_view(patches@) + Seq::<PatchModel>::empty() =~= patches_view(patches@));
        }
        m += 1;
    }
    Some(patches)
}

/// The patches of the new children before the first of the subsequence.
fn before_first_exec<'a, Skip: Fn(&Node, &Node) -> bool, Rep: Fn(&Node, &Node) -> bool>(
    olds: &'a Vec<Node>,
    news: &'a Vec<Node>,
    map: &Vec<usize>,
    lis: &Vec<usize>,
    l: usize,
    oe: usize,
    ne: usize,
    key: &Att,
    path: &TreePath,
    skip: &Skip,
    rep: &Rep,
) -> (r: Option<Vec<Patch<'a>>>)
    requires
        well_behaved(*skip),
        well_behaved(*rep),
        l <= oe <= olds@.len(),
        l <= ne <= news@.len(),
        map@.len() == ne - l,
        map_ok(map@, olds@.subrange(l as int, oe as int)),
        lis@.len() > 0,
        lis_ok(lis@, map@),
    ensures
        ({
            let d = before_first(
                olds@.subrange(l as int, oe as int),
                news@.subrange(l as int, ne as int),
                map@,
                lis@,
                l as int,
                path@,
                (*key)@,
                decision(*skip),
                decision(*rep),
            );
            &&& r is Some <==> d is Some
            &&& r matches Some(v) ==> patches_view(v@) == d->0
        }),
    decreases olds, 2nat,
{
    let ghost sk = decision(*skip);
    let ghost rp = decision(*rep);
    let ghost oc = olds@.subrange(l as int, oe as int);
    let ghost nc = news@.subrange(l as int, ne as int);
    let first = lis[0];
    assert((lis@[0] as int) < map@.len());
    if first > 0 {
        let ghost s = scan(oc, nc, map@, l as int, path@, (*key)@, sk, rp, 0, first as int);
        let (d, nodes, paths) = match scan_exec(olds, news, map, l, oe, ne, 0, first, key, path, skip, rep) {
            Some(v) => v,
            None => {
                return None;
            },
        };
        let mut patches = d;
        if paths.len() > 0 {
            if l >= oe - l {
                return None;
            }
            let ghost before = patches@;
            patches.push(Patch::move_before_node(olds[l + l].tag(), path.traverse(l), paths));
            assert(patches_view(patches@) =~= patches_view(before) + seq![
                PatchModel::MoveBeforeNode {
                    tag: tag_of(oc[l as int]),
                    patch_path: path@.push(l),
                    nodes_path: s.2,
                },
            ]);
        } else {
            assert(patches_view(patches@) + Seq::<PatchModel>::empty() =~= patches_view(patches@));
        }
        let ghost mid = patches@;
        if nodes.len() > 0 {
            let oi = map[first];
            if oi >= oe - l {
                return None;
            }
            patches.push(Patch::insert_before_node(olds[l + oi].tag(), path.traverse(l + oi), nodes));
            assert(patches_view(patches@) =~= patches_view(mid) + seq![
                PatchModel::InsertBeforeNode {
                    tag: tag_of(oc[oi as int]),
                    patch_path: path@.push((l + oi) as usize),
                    nodes: s.1,
                },
            ]);
        } else {
            assert(patches_view(patches@) + Seq::<PatchModel>::empty() =~= patches_view(patches@));
        }
        proof {
            let x = Seq::<PatchModel>::empty();
            assert(s.0->0 + (x + x) =~= s.0->0);
        }
        Some(patches)
    } else {
        let patches: Vec<Patch<'a>> = Vec::new();
        assert(patches_view(patches@) =~= Seq::<PatchModel>::empty());
        Some(patches)
    }
}

/// Pushes the removals of the old children of the middle from position `lo` on, each at its
/// position in the middle.
fn push_middle_removes<'a>(
    patches: &mut Vec<Patch<'a>>,
    olds: &'a Vec<Node>,
    l: usize,
    oe: usize,
    lo: usize,
    path: &TreePath,
)
    requires
        l <= oe <= olds@.len(),
        lo <= oe - l,
    ensures
        patches_view(final(patches)@) == patches_view(old(patches)@) + removes_range(
            olds@.subrange(l as int, oe as int),
            path@,
            lo as int,
            oe - l,
        ),
{
    let ghost oc = olds@.subrange(l as int, oe as int);
    let ghost start = patches@;
    let mut k: usize = lo;
    while k < oe - l
        invariant
            l <= oe <= olds@.len(),
            oc == olds@.subrange(l as int, oe as int),
            lo <= k <= oc.len(),
            patches_view(patches@) == patches_view(start) + removes_range(oc, path@, lo as int, k as int),
        decreases oc.len() - k,
    {
        let ghost before = patches@;
        patches.push(Patch::remove_node(olds[l + k].tag(), path.traverse(k)));
        proof {
            assert(removes_range(oc, path@, lo as int, k + 1) =~= removes_range(oc, path@, lo as int, k as int).push(
                remove_patch(oc[k as int], path@.push(k)),
            ));
            assert(patches_view(patches@) =~= patches_view(before).push(
                remove_patch(oc[k as int], path@.push(k)),
            ));
        }
        k += 1;
    }
}

/// The keyed diff of the children in the middle.
fn keyed_middle_exec<'a, Skip: Fn(&Node, &Node) -> bool, Rep: Fn(&Node, &Node) -> bool>(
    olds: &'a Vec<Node>,
    news: &'a Vec<Node>,
    l: usize,
    oe: usize,
    ne: usize,
    key: &Att,
    path: &TreePath,
    skip: &Skip,
    rep: &Rep,
) -> (r: Option<Vec<Patch<'a>>>)
    requires
        well_behaved(*skip),
        well_behaved(*rep),
        l < oe <= olds@.len(),
        l < ne <= news@.len(),
    ensures
        ({
            let d = keyed_middle(
                olds@.subrange(l as int, oe as int),
                news@.subrange(l as int, ne as int),
                l as int,
                path@,
                (*key)@,
                decision(*skip),
                decision(*rep),
            );
            &&& r is Some <==> d is Some
            &&& r matches Some(v) ==> patches_view(v@) == d->0
        }),
    decreases olds, 4nat,
{
    let ghost sk = decision(*skip);
    let ghost rp = decision(*rep);
    let ghost oc = olds@.subrange(l as int, oe as int);
    let ghost nc = news@.subrange(l as int, ne as int);
    let (map, shared) = build_index_map(olds, news, l, oe, ne, key);
    proof {
        lemma_index_map_ok(oc, nc, (*key)@);
    }
    let mut patches: Vec<Patch<'a>> = Vec::new();
    if !shared {
        push_middle_removes(&mut patches, olds, l, oe, 1, path);
        if l >= oe - l {
            return None;
        }
        let ghost before = patches@;
        patches.push(Patch::replace_with_nodes(olds[l + l].tag(), path.traverse(l), node_refs(news, l, ne)));
        assert(patches_view(patches@) =~= patches_view(before) + seq![
            PatchModel::ReplaceNode {
                tag: tag_of(oc[l as int]),
                patch_path: path@.push(l),
                replacement: nc,
            },
        ]);
        return Some(patches);
    }
    push_removals(&mut patches, olds, news, l, oe, ne, key, path);
    assert(patches_view(patches@) =~= removals(oc, nc, (*key)@, path@, l as int, oc.len() as int));
    let ghost rem = patches_view(patches@);
    let lis = lis_order_exec(&map);
    if lis.len() == 0 {
        return None;
    }
    let ghost around = opt_concat(
        lis_diffs(oc, nc, map@, lis@, path@, (*key)@, sk, rp, lis@.len() as int),
        opt_concat(
            after_last(oc, nc, map@, lis@, l as int, path@, (*key)@, sk, rp),
            opt_concat(
                gaps(oc, nc, map@, lis@, l as int, path@, (*key)@, sk, rp, lis@.len() - 1),
                before_first(oc, nc, map@, lis@, l as int, path@, (*key)@, sk, rp),
            ),
        ),
    );
    assert(keyed_middle(oc, nc, l as int, path@, (*key)@, sk, rp) == opt_concat(Some(rem), around));
    let mut more = match diff_around_lis(olds, news, &map, &lis, l, oe, ne, key, path, skip, rep) {
        Some(v) => v,
        None => {
            return None;
        },
    };
    let ghost before = patches@;
    let ghost added = more@;
    patches.append(&mut more);
    proof {
        lemma_patches_view_add(before, added);
    }
    Some(patches)
}

/// The diffs along the subsequence, then the moves and insertions of the new children after its
/// last position, between its positions and before its first one; `None` where one of them
/// cannot be made. The old children from `l` up to `oe` and the new ones from `l` up to `ne`
/// are those of the middle; `map` holds, for each new child of the middle, the position of its
/// old child there, and `lis` the positions of an increasing subsequence of `map`.
pub fn diff_around_lis<'a, Skip: Fn(&Node, &Node) -> bool, Rep: Fn(&Node, &Node) -> bool>(
    olds: &'a Vec<Node>,
    news: &'a Vec<Node>,
    map: &Vec<usize>,
    lis: &Vec<usize>,
    l: usize,
    oe: usize,
    ne: usize,
    key: &Att,
    path: &TreePath,
    skip: &Skip,
    rep: &Rep,
) -> (r: Option<Vec<Patch<'a>>>)
    requires
        well_behaved(*skip),
        well_behaved(*rep),
        l < oe <= olds@.len(),
        l < ne <= news@.len(),
        map@.len() == ne - l,
        map_ok(map@, olds@.subrange(l as int, oe as int)),
        lis@.len() > 0,
        lis_ok(lis@, map@),
    ensures
        ({
            let oc = olds@.subrange(l as int, oe as int);
            let nc = news@.subrange(l as int, ne as int);
            let sk = decision(*skip);
            let rp = decision(*rep);
            let d = opt_concat(
                lis_diffs(oc, nc, map@, lis@, path@, (*key)@, sk, rp, lis@.len() as int),
                opt_concat(
                    after_last(oc, nc, map@, lis@, l as int, path@, (*key)@, sk, rp),
                    opt_concat(
                        gaps(oc, nc, map@, lis@, l as int, path@, (*key)@, sk, rp, lis@.len() - 1),
                        before_first(oc, nc, map@, lis@, l as int, path@, (*key)@, sk, rp),
                    ),
                ),
            );
            &&& r is Some <==> d is Some
            &&& r matches Some(v) ==> patches_view(v@) == d->0
        }),
    decreases olds, 3nat,
{
    let ghost sk = decision(*skip);
    let ghost rp = decision(*rep);
    let ghost oc = olds@.subrange(l as int, oe as int);
    let ghost nc = news@.subrange(l as int, ne as int);
    let mut patches: Vec<Patch<'a>> = Vec::new();
    let ghost ld = lis_diffs(oc, nc, map@, lis@, path@, (*key)@, sk, rp, lis@.len() as int);
    let ghost al = after_last(oc, nc, map@, lis@, l as int, path@, (*key)@, sk, rp);
    let ghost gp = gaps(oc, nc, map@, lis@, l as int, path@, (*key)@, sk, rp, lis@.len() - 1);
    let ghost bf = before_first(oc, nc, map@, lis@, l as int, path@, (*key)@, sk, rp);
    let mut more = match lis_diffs_exec(olds, news, map, lis, l, oe, ne, key, path, skip, rep) {
        Some(v) => v,
        None => {
            return None;
        },
    };
    let ghost b1 = patches@;
    let ghost a1 = more@;
    patches.append(&mut more);
    proof {
        lemma_patches_view_add(b1, a1);
    }
    let mut more = match after_last_exec(olds, news, map, lis, l, oe, ne, key, path, skip, rep) {
        Some(v) => v,
        None => {
            return None;
        },
    };
    let ghost b2 = patches@;
    let ghost a2 = more@;
    patches.append(&mut more);
    proof {
        lemma_patches_view_add(b2, a2);
    }
    let mut more = match gaps_exec(olds, news, map, lis, l, oe, ne, key, path, skip, rep) {
        Some(v) => v,
        None => {
            return None;
        },
    };
    let ghost b3 = patches@;
    let ghost a3 = more@;
    patches.append(&mut more);
    proof {
        lemma_patches_view_add(b3, a3);
    }
    let mut more = match before_first_exec(olds, news, map, lis, l, oe, ne, key, path, skip, rep) {
        Some(v) => v,
        None => {
            return None;
        },
    };
    let ghost b4 = patches@;
    let ghost a4 = more@;
    patches.append(&mut more);
    proof {
        lemma_patches_view_add(b4, a4);
        assert(patches_view(patches@) =~= ld->0 + (al->0 + (gp->0 + bf->0)));
    }
    Some(patches)
}

/// The trailing pairs stay within both sequences.
pub proof fn lemma_trail(olds: Seq<Node>, news: Seq<Node>, key: Seq<char>, l: int, t: int)
    requires
        0 <= t <= olds.len(),
        t <= news.len(),
    ensures
        t <= trail(olds, news, key, l, t) <= olds.len(),
        trail(olds, news, key, l, t) <= news.len(),
    decreases olds.len() - t,
{
    if t < olds.len() && t < news.len() && olds.len() - 1 - t >= l && news.len() - 1 - t >= l
        && key_of(olds[olds.len() - 1 - t], key) == key_of(news[news.len() - 1 - t], key) {
        lemma_trail(olds, news, key, l, t + 1);
    }
}

/// The keyed diff of the children of two elements, or `None` where it cannot be made.
pub(crate) fn lis_diff_core<'a, Skip: Fn(&Node, &Node) -> bool, Rep: Fn(&Node, &Node) -> bool>(
    old_element: &'a Element,
    new_element: &'a Element,
    key: &Att,
    path: &TreePath,
    skip: &Skip,
    rep: &Rep,
) -> (r: Option<Vec<Patch<'a>>>)
    requires
        well_behaved(*skip),
        well_behaved(*rep),
    ensures
        ({
            let d = lis_diff(
                old_element.tag,
                old_element.children@,
                new_element.children@,
                path@,
                (*key)@,
                decision(*skip),
                decision(*rep),
            );
            &&& r is Some <==> d is Some
            &&& r matches Some(v) ==> patches_view(v@) == d->0
        }),
    decreases old_element, 1nat,
{
    let ghost sk = decision(*skip);
    let ghost rp = decision(*rep);
    let olds = &old_element.children;
    let news = &new_element.children;
    let ghost ep = ends_patches(old_element.tag, olds@, news@, path@, (*key)@, sk, rp);
    let (mut patches, offsets) = match diff_keyed_ends(old_element, new_element, key, path, skip, rep) {
        Some(v) => v,
        None => {
            return None;
        },
    };
    let (l, r) = match offsets {
        Some(lr) => lr,
        None => {
            return Some(patches);
        },
    };
    let ghost md = middle(olds@, news@, path@, (*key)@, sk, rp, l as int, r as int);
    assert(lis_diff(old_element.tag, olds@, news@, path@, (*key)@, sk, rp) == opt_concat(ep, md));
    let old_end = if olds.len() - r >= l {
        olds.len() - r
    } else {
        l
    };
    let new_end = if news.len() - r >= l {
        news.len() - r
    } else {
        l
    };
    let ghost before = patches@;
    if new_end == l {
        push_removes(&mut patches, olds, path, l, old_end);
        return Some(patches);
    } else if old_end == l {
        if l >= olds.len() {
            return None;
        }
        let nodes = node_refs(news, l, new_end);
        patches.push(Patch::insert_before_node(olds[l].tag(), path.traverse(l), nodes));
        assert(patches_view(patches@) =~= patches_view(before) + seq![
            PatchModel::InsertBeforeNode {
                tag: tag_of(olds@[l as int]),
                patch_path: path@.push(l),
                nodes: news@.subrange(l as int, new_end as int),
            },
        ]);
        return Some(patches);
    }
    let mut more = match keyed_middle_exec(olds, news, l, old_end, new_end, key, path, skip, rep) {
        Some(v) => v,
        None => {
            return None;
        },
    };
    let ghost added = more@;
    patches.append(&mut more);
    proof {
        lemma_patches_view_add(before, added);
    }
    Some(patches)
}

/// diff the children of two elements by key: from both ends first, then, in the middle, along
/// a longest increasing subsequence of the positions that the new children had among the old
/// ones, moving, inserting and removing the others around it.
pub fn diff_keyed_elements<'a, Skip: Fn(&Node, &Node) -> bool, Rep: Fn(&Node, &Node) -> bool>(
    old_element: &'a Element,
    new_element: &'a Element,
    key: &Att,
    path: &TreePath,
    skip: &Skip,
    rep: &Rep,
) -> (r: Vec<Patch<'a>>)
    requires
        well_behaved(*skip),
        well_behaved(*rep),
        lis_diff(
            old_element.tag,
            old_element.children@,
            new_element.children@,
            path@,
            (*key)@,
            decision(*skip),
            decision(*rep),
        ) is Some,
    ensures
        patches_view(r@) == lis_diff(
            old_element.tag,
            old_element.children@,
            new_element.children@,
            path@,
            (*key)@,
            decision(*skip),
            decision(*rep),
        )->0,
{
    lis_diff_core(old_element, new_element, key, path, skip, rep).unwrap()
}

/// The keyed diff of `diff_keyed_elements`, when it can be made: `None` on the children on which
/// it panics.
pub fn try_diff_keyed_elements<
    'a,
    Skip: Fn(&Node, &Node) -> bool,
    Rep: Fn(&Node, &Node) -> bool,
>(
    old_element: &'a Element,
    new_element: &'a Element,
    key: &Att,
    path: &TreePath,
    skip: &Skip,
    rep: &Rep,
) -> (r: Option<Vec<Patch<'a>>>)
    requires
        well_behaved(*skip),
        well_behaved(*rep),
    ensures
        ({
            let d = lis_diff(
                old_element.tag,
                old_element.children@,
                new_element.children@,
                path@,
                (*key)@,
                decision(*skip),
                decision(*rep),
            );
            &&& r is Some <==> d is Some
            &&& r matches Some(v) ==> patches_view(v@) == d->0
        }),
{
    lis_diff_core(old_element, new_element, key, path, skip, rep)
}

/// All the pairs of a sequence with itself have the same key.
proof fn lemma_lead_self(cs: Seq<Node>, key: Seq<char>, i: int)
    requires
        0 <= i <= cs.len(),
    ensures
        lead(cs, cs, key, i) == cs.len(),
    decreases cs.len() - i,
{
    if i < cs.len() {
        lemma_lead_self(cs, key, i + 1);
    }
}

/// The keyed diff of plain children with themselves, with neither skipping nor forced replacing,
/// gives no patch.
pub proof fn lemma_lis_diff_self(tag: Tag, cs: Seq<Node>, path: Seq<usize>, key: Seq<char>)
    requires
        all_plain(cs),
    ensures
        lis_diff(tag, cs, cs, path, key, never(), never()) == Some(Seq::<PatchModel>::empty()),
    decreases cs, cs.len() + 1,
{
    lemma_lead_self(cs, key, 0);
    lemma_pairs_self(cs, path, key, cs.len() as int);
    assert(Seq::<PatchModel>::empty() + Seq::<PatchModel>::empty() =~= Seq::<PatchModel>::empty());
}

} // verus!

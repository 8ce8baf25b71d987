//! What the keyed diff of the children between the matched ends does with each child: the old
//! children that go are removed, the new children that no old child matches are inserted, and
//! the matched new children outside the kept subsequence have their old children moved.
use super::{key_of, opt_concat, remove_patch, removes_range};
use crate::diff_lis::{
    after_last, before_first, gap, gaps, index_map, first_with_key, keyed_middle, lis_diffs,
    lis_ok, lis_order, middle, removals, removed, scan, unmatched, any_shared,
};
use crate::node::Node;
use crate::patch::PatchModel;
use vstd::prelude::*;

verus! {

/// Whether one of the patches inserts `n`: an insertion before or after a node whose nodes
/// hold `n`.
pub open spec fn inserts(ps: Seq<PatchModel>, n: Node) -> bool {
    exists|k: int|
        0 <= k < ps.len() && match #[trigger] ps[k] {
            PatchModel::InsertBeforeNode { nodes, .. } => nodes.contains(n),
            PatchModel::InsertAfterNode { nodes, .. } => nodes.contains(n),
            _ => false,
        }
}

/// Whether one of the patches moves the node at `p`: a move before or after a node whose paths
/// hold `p`.
pub open spec fn moves(ps: Seq<PatchModel>, p: Seq<usize>) -> bool {
    exists|k: int|
        0 <= k < ps.len() && match #[trigger] ps[k] {
            PatchModel::MoveBeforeNode { nodes_path, .. } => nodes_path.contains(p),
            PatchModel::MoveAfterNode { nodes_path, .. } => nodes_path.contains(p),
            _ => false,
        }
}

/// Whether no old child has the key of the new child `n`: it has no key, or no old child has
/// its key.
pub open spec fn fresh_child(oc: Seq<Node>, n: Node, key: Seq<char>) -> bool {
    !(exists|i: int|
        0 <= i < oc.len() && key_of(n, key) is Some && key_of(#[trigger] oc[i], key) == key_of(
            n,
            key,
        ))
}

/// A defined concatenation of two optional patch sequences is their concatenation.
proof fn lemma_opt_concat_some(
    a: Option<Seq<PatchModel>>,
    b: Option<Seq<PatchModel>>,
    ps: Seq<PatchModel>,
)
    requires
        opt_concat(a, b) == Some(ps),
    ensures
        a is Some,
        b is Some,
        ps == a->0 + b->0,
{
}

/// An insertion among the patches of one part is an insertion among the patches of the whole.
proof fn lemma_inserts_concat(a: Seq<PatchModel>, b: Seq<PatchModel>, n: Node)
    ensures
        inserts(a, n) ==> inserts(a + b, n),
        inserts(b, n) ==> inserts(a + b, n),
{
    if inserts(a, n) {
        let k = choose|k: int|
            0 <= k < a.len() && match #[trigger] a[k] {
                PatchModel::InsertBeforeNode { nodes, .. } => nodes.contains(n),
                PatchModel::InsertAfterNode { nodes, .. } => nodes.contains(n),
                _ => false,
            };
        assert((a + b)[k] == a[k]);
    }
    if inserts(b, n) {
        let k = choose|k: int|
            0 <= k < b.len() && match #[trigger] b[k] {
                PatchModel::InsertBeforeNode { nodes, .. } => nodes.contains(n),
                PatchModel::InsertAfterNode { nodes, .. } => nodes.contains(n),
                _ => false,
            };
        assert((a + b)[a.len() + k] == b[k]);
    }
}

/// The new children from `a` to `b` that no old child matches are among the ones the scan
/// collects for insertion.
proof fn lemma_scan_collects(
    oc: Seq<Node>,
    nc: Seq<Node>,
    map: Seq<usize>,
    l: int,
    path: Seq<usize>,
    key: Seq<char>,
    sk: spec_fn(Node, Node) -> bool,
    rp: spec_fn(Node, Node) -> bool,
    a: int,
    b: int,
    j: int,
)
    requires
        a <= j < b,
        map[j] == unmatched(),
    ensures
        scan(oc, nc, map, l, path, key, sk, rp, a, b).1.contains(nc[j]),
    decreases b - a,
{
    let prev = scan(oc, nc, map, l, path, key, sk, rp, a, b - 1);
    if j == b - 1 {
        assert(prev.1.push(nc[j])[prev.1.len() as int] == nc[j]);
    } else {
        lemma_scan_collects(oc, nc, map, l, path, key, sk, rp, a, b - 1, j);
        let i = choose|i: int| 0 <= i < prev.1.len() && prev.1[i] == nc[j];
        if map[b - 1] == unmatched() {
            assert(prev.1.push(nc[b - 1])[i] == nc[j]);
        }
    }
}

/// Each gap among the first `m` is defined when they all are, and its insertions are among
/// theirs.
proof fn lemma_gaps_part(
    oc: Seq<Node>,
    nc: Seq<Node>,
    map: Seq<usize>,
    lis: Seq<usize>,
    l: int,
    path: Seq<usize>,
    key: Seq<char>,
    sk: spec_fn(Node, Node) -> bool,
    rp: spec_fn(Node, Node) -> bool,
    m: int,
    q: int,
    n: Node,
    ps: Seq<PatchModel>,
)
    requires
        gaps(oc, nc, map, lis, l, path, key, sk, rp, m) == Some(ps),
        1 <= q <= m,
        gap(oc, nc, map, lis.last() as int, lis[lis.len() - 1 - q] as int, l, path, key, sk, rp)
            matches Some(g) ==> inserts(g, n),
    ensures
        inserts(ps, n),
    decreases m,
{
    let rest = gaps(oc, nc, map, lis, l, path, key, sk, rp, m - 1);
    let this = gap(
        oc,
        nc,
        map,
        lis.last() as int,
        lis[lis.len() - 1 - m] as int,
        l,
        path,
        key,
        sk,
        rp,
    );
    lemma_opt_concat_some(rest, this, ps);
    lemma_inserts_concat(rest->0, this->0, n);
    if q < m {
        lemma_gaps_part(oc, nc, map, lis, l, path, key, sk, rp, m - 1, q, n, rest->0);
    }
}

/// A position strictly between the first and the last of an increasing sequence, and not in
/// it, lies strictly between two neighbours of it.
proof fn lemma_between(lis: Seq<usize>, j: int) -> (k: int)
    requires
        lis.len() > 0,
        forall|a: int, b: int| 0 <= a < b < lis.len() ==> #[trigger] lis[a] < #[trigger] lis[b],
        lis[0] < j < lis.last(),
        forall|k: int| 0 <= k < lis.len() ==> lis[k] != j,
    ensures
        0 <= k < lis.len() - 1,
        lis[k] < j < lis[k + 1],
    decreases lis.len(),
{
    if lis[1] > j {
        0
    } else {
        let t = lis.drop_first();
        assert forall|a: int, b: int| 0 <= a < b < t.len() implies #[trigger] t[a] < #[trigger] t[b] by {
            assert(lis[a + 1] < lis[b + 1]);
        }
        assert(t.last() == lis.last());
        let k = lemma_between(t, j);
        k + 1
    }
}

/// A new child after the last of the subsequence that no old child matches is inserted by the
/// patches after it.
proof fn lemma_after_last_inserts(
    oc: Seq<Node>,
    nc: Seq<Node>,
    map: Seq<usize>,
    lis: Seq<usize>,
    l: int,
    path: Seq<usize>,
    key: Seq<char>,
    sk: spec_fn(Node, Node) -> bool,
    rp: spec_fn(Node, Node) -> bool,
    j: int,
    al: Seq<PatchModel>,
)
    requires
        after_last(oc, nc, map, lis, l, path, key, sk, rp) == Some(al),
        lis.last() < j < nc.len(),
        map[j] == unmatched(),
    ensures
        inserts(al, nc[j]),
{
    let last = lis.last() as int;
    let s = scan(oc, nc, map, l, path, key, sk, rp, last + 1, nc.len() as int);
    lemma_scan_collects(oc, nc, map, l, path, key, sk, rp, last + 1, nc.len() as int, j);
    assert(s.1.len() > 0);
    let oi = map[last];
    let ins = seq![
        PatchModel::InsertAfterNode {
            tag: crate::node::tag_of(oc[oi as int]),
            patch_path: path.push((l + oi) as usize),
            nodes: s.1,
        },
    ];
    let moves = if s.2.len() > 0 {
        if l + last < oc.len() {
            Some(
                seq![
                    PatchModel::MoveAfterNode {
                        tag: crate::node::tag_of(oc[l + last]),
                        patch_path: path.push((l + last) as usize),
                        nodes_path: s.2,
                    },
                ],
            )
        } else {
            None
        }
    } else {
        Some(Seq::empty())
    };
    lemma_opt_concat_some(s.0, opt_concat(moves, Some(ins)), al);
    lemma_opt_concat_some(moves, Some(ins), opt_concat(moves, Some(ins))->0);
    assert(ins[0] is InsertAfterNode);
    assert(inserts(ins, nc[j]));
    lemma_inserts_concat(moves->0, ins, nc[j]);
    lemma_inserts_concat(s.0->0, opt_concat(moves, Some(ins))->0, nc[j]);
}

/// A new child before the first of the subsequence that no old child matches is inserted by the
/// patches before it.
proof fn lemma_before_first_inserts(
    oc: Seq<Node>,
    nc: Seq<Node>,
    map: Seq<usize>,
    lis: Seq<usize>,
    l: int,
    path: Seq<usize>,
    key: Seq<char>,
    sk: spec_fn(Node, Node) -> bool,
    rp: spec_fn(Node, Node) -> bool,
    j: int,
    bf: Seq<PatchModel>,
)
    requires
        before_first(oc, nc, map, lis, l, path, key, sk, rp) == Some(bf),
        0 <= j < lis[0],
        map[j] == unmatched(),
    ensures
        inserts(bf, nc[j]),
{
    let first = lis[0] as int;
    let s = scan(oc, nc, map, l, path, key, sk, rp, 0, first);
    lemma_scan_collects(oc, nc, map, l, path, key, sk, rp, 0, first, j);
    assert(s.1.len() > 0);
    let oi = map[first];
    let ins = seq![
        PatchModel::InsertBeforeNode {
            tag: crate::node::tag_of(oc[oi as int]),
            patch_path: path.push((l + oi) as usize),
            nodes: s.1,
        },
    ];
    let moves = if s.2.len() > 0 {
        if l < oc.len() {
            Some(
                seq![
                    PatchModel::MoveBeforeNode {
                        tag: crate::node::tag_of(oc[l]),
                        patch_path: path.push(l as usize),
                        nodes_path: s.2,
                    },
                ],
            )
        } else {
            None
        }
    } else {
        Some(Seq::empty())
    };
    let inserts_part = if (oi as int) < oc.len() {
        Some(ins)
    } else {
        None
    };
    lemma_opt_concat_some(s.0, opt_concat(moves, inserts_part), bf);
    lemma_opt_concat_some(moves, inserts_part, opt_concat(moves, inserts_part)->0);
    assert(ins[0] is InsertBeforeNode);
    assert(inserts(ins, nc[j]));
    lemma_inserts_concat(moves->0, ins, nc[j]);
    lemma_inserts_concat(s.0->0, opt_concat(moves, inserts_part)->0, nc[j]);
}

/// A new child between `next` and `last` that no old child matches is inserted by the gap
/// between them.
proof fn lemma_gap_inserts(
    oc: Seq<Node>,
    nc: Seq<Node>,
    map: Seq<usize>,
    last: int,
    next: int,
    l: int,
    path: Seq<usize>,
    key: Seq<char>,
    sk: spec_fn(Node, Node) -> bool,
    rp: spec_fn(Node, Node) -> bool,
    j: int,
)
    requires
        next < j < last,
        map[j] == unmatched(),
    ensures
        gap(oc, nc, map, last, next, l, path, key, sk, rp) matches Some(g) ==> inserts(g, nc[j]),
{
    let s = scan(oc, nc, map, l, path, key, sk, rp, next + 1, last);
    lemma_scan_collects(oc, nc, map, l, path, key, sk, rp, next + 1, last, j);
    assert(s.1.len() > 0);
    if let Some(gv) = gap(oc, nc, map, last, next, l, path, key, sk, rp) {
        let ins = seq![
            PatchModel::InsertBeforeNode {
                tag: crate::node::tag_of(oc[last]),
                patch_path: path.push((l + last) as usize),
                nodes: s.1,
            },
        ];
        if last < oc.len() {
            lemma_opt_concat_some(s.0, Some(ins), gv);
            assert(ins[0] is InsertBeforeNode);
            assert(inserts(ins, nc[j]));
            lemma_inserts_concat(s.0->0, ins, nc[j]);
        }
    }
}

/// Every new child that no old child matches is inserted by the moves and insertions around an
/// increasing subsequence of matched new children: before the first of the subsequence, between
/// two of its children, or after the last. The patches are those of `diff_around_lis`, with the
/// map that holds, for each new child, the position of the first old child with its key.
pub proof fn lemma_fresh_children_inserted(
    oc: Seq<Node>,
    nc: Seq<Node>,
    lis: Seq<usize>,
    l: int,
    path: Seq<usize>,
    key: Seq<char>,
    sk: spec_fn(Node, Node) -> bool,
    rp: spec_fn(Node, Node) -> bool,
    j: int,
    ps: Seq<PatchModel>,
)
    requires
        lis.len() > 0,
        lis_ok(lis, index_map(oc, nc, key)),
        forall|k: int| 0 <= k < lis.len() ==> index_map(oc, nc, key)[#[trigger] lis[k] as int] != unmatched(),
        opt_concat(
            lis_diffs(oc, nc, index_map(oc, nc, key), lis, path, key, sk, rp, lis.len() as int),
            opt_concat(
                after_last(oc, nc, index_map(oc, nc, key), lis, l, path, key, sk, rp),
                opt_concat(
                    gaps(oc, nc, index_map(oc, nc, key), lis, l, path, key, sk, rp, lis.len() - 1),
                    before_first(oc, nc, index_map(oc, nc, key), lis, l, path, key, sk, rp),
                ),
            ),
        ) == Some(ps),
        0 <= j < nc.len(),
        fresh_child(oc, nc[j], key),
    ensures
        inserts(ps, nc[j]),
{
    let map = index_map(oc, nc, key);
    assert(map[j] == unmatched()) by {
        if let Some(k) = key_of(nc[j], key) {
            lemma_first_with_key_none(oc, key, k, 0);
        }
    }
    assert forall|k: int| 0 <= k < lis.len() implies lis[k] != j by {
        assert(map[lis[k] as int] != unmatched());
    }
    let ld = lis_diffs(oc, nc, map, lis, path, key, sk, rp, lis.len() as int);
    let al = after_last(oc, nc, map, lis, l, path, key, sk, rp);
    let gp = gaps(oc, nc, map, lis, l, path, key, sk, rp, lis.len() - 1);
    let bf = before_first(oc, nc, map, lis, l, path, key, sk, rp);
    lemma_opt_concat_some(ld, opt_concat(al, opt_concat(gp, bf)), ps);
    let r1 = opt_concat(al, opt_concat(gp, bf))->0;
    lemma_opt_concat_some(al, opt_concat(gp, bf), r1);
    let r2 = opt_concat(gp, bf)->0;
    lemma_opt_concat_some(gp, bf, r2);
    let last = lis.last() as int;
    let first = lis[0] as int;
    if j > last {
        lemma_after_last_inserts(oc, nc, map, lis, l, path, key, sk, rp, j, al->0);
        lemma_inserts_concat(al->0, r2, nc[j]);
    } else if j < first {
        lemma_before_first_inserts(oc, nc, map, lis, l, path, key, sk, rp, j, bf->0);
        lemma_inserts_concat(gp->0, bf->0, nc[j]);
        lemma_inserts_concat(al->0, r2, nc[j]);
    } else {
        lemma_gaps_case(oc, nc, map, lis, l, path, key, sk, rp, j, gp->0);
        lemma_inserts_concat(gp->0, bf->0, nc[j]);
        lemma_inserts_concat(al->0, r2, nc[j]);
    }
    lemma_inserts_concat(ld->0, r1, nc[j]);
}

/// A new child between the first and the last of the subsequence that no old child matches is
/// inserted by one of the gaps.
proof fn lemma_gaps_case(
    oc: Seq<Node>,
    nc: Seq<Node>,
    map: Seq<usize>,
    lis: Seq<usize>,
    l: int,
    path: Seq<usize>,
    key: Seq<char>,
    sk: spec_fn(Node, Node) -> bool,
    rp: spec_fn(Node, Node) -> bool,
    j: int,
    gp: Seq<PatchModel>,
)
    requires
        lis.len() > 0,
        lis_ok(lis, map),
        gaps(oc, nc, map, lis, l, path, key, sk, rp, lis.len() - 1) == Some(gp),
        lis[0] <= j <= lis.last(),
        forall|k: int| 0 <= k < lis.len() ==> lis[k] != j,
        map[j] == unmatched(),
    ensures
        inserts(gp, nc[j]),
{
    assert(lis.len() > 1) by {
        if lis.len() == 1 {
            assert(lis.last() == lis[0]);
        }
    }
    assert forall|a: int, b: int| 0 <= a < b < lis.len() implies #[trigger] lis[a]
        < #[trigger] lis[b] by {
        assert(lis[a] < lis[b] && map[lis[a] as int] < map[lis[b] as int]);
    }
    assert(lis[0] < j < lis.last()) by {
        assert(lis[0] != j);
        assert(lis[lis.len() - 1] != j);
    }
    let last = lis.last() as int;
    let k = lemma_between(lis, j);
    let q = lis.len() - 1 - k;
    let next = lis[k] as int;
    assert(lis[lis.len() - 1 - q] == lis[k]);
    assert(lis[k + 1] <= lis.last()) by {
        if k + 1 < lis.len() - 1 {
            assert(lis[k + 1] < lis[lis.len() - 1]);
        }
    }
    lemma_gap_inserts(oc, nc, map, last, next, l, path, key, sk, rp, j);
    lemma_gaps_part(oc, nc, map, lis, l, path, key, sk, rp, lis.len() - 1, q, nc[j], gp);
}

/// No old position from `i` on holds a key that no old child has.
proof fn lemma_first_with_key_none(oc: Seq<Node>, key: Seq<char>, k: Seq<Seq<char>>, i: int)
    requires
        0 <= i,
        !(exists|p: int| 0 <= p < oc.len() && key_of(#[trigger] oc[p], key) == Some(k)),
    ensures
        first_with_key(oc, key, k, i) is None,
    decreases oc.len() - i,
{
    if i < oc.len() {
        lemma_first_with_key_none(oc, key, k, i + 1);
    }
}

/// The removals among the first `n` old children hold the removal of each of them that goes.
proof fn lemma_removals_hold(
    oc: Seq<Node>,
    nc: Seq<Node>,
    key: Seq<char>,
    path: Seq<usize>,
    l: int,
    n: int,
    i: int,
)
    requires
        0 <= i < n,
        removed(oc, nc, key, i),
    ensures
        removals(oc, nc, key, path, l, n).contains(remove_patch(oc[i], path.push((l + i) as usize))),
    decreases n,
{
    let prev = removals(oc, nc, key, path, l, n - 1);
    let p = remove_patch(oc[i], path.push((l + i) as usize));
    if i == n - 1 {
        let all = prev + seq![p];
        assert(all[prev.len() as int] == p);
    } else {
        lemma_removals_hold(oc, nc, key, path, l, n - 1, i);
        let t = choose|t: int| 0 <= t < prev.len() && prev[t] == p;
        let more: Seq<PatchModel> = if removed(oc, nc, key, n - 1) {
            seq![remove_patch(oc[n - 1], path.push((l + n - 1) as usize))]
        } else {
            Seq::empty()
        };
        assert((prev + more)[t] == p);
    }
}

/// In the keyed diff of the children between the matched ends, when some new child has the key
/// of some old one, every old child that has no key, or whose key no new child has, is removed
/// at its position, `l` being the position of the first of them.
pub proof fn lemma_unmatched_old_children_removed(
    oc: Seq<Node>,
    nc: Seq<Node>,
    l: int,
    path: Seq<usize>,
    key: Seq<char>,
    sk: spec_fn(Node, Node) -> bool,
    rp: spec_fn(Node, Node) -> bool,
    i: int,
    ps: Seq<PatchModel>,
)
    requires
        keyed_middle(oc, nc, l, path, key, sk, rp) == Some(ps),
        any_shared(oc, nc, key),
        0 <= i < oc.len(),
        key_of(oc[i], key) is None || !(exists|j: int|
            0 <= j < nc.len() && key_of(#[trigger] nc[j], key) == key_of(oc[i], key)),
    ensures
        ps.contains(
            PatchModel::RemoveNode {
                tag: crate::node::tag_of(oc[i]),
                patch_path: path.push((l + i) as usize),
            },
        ),
{
    let map = index_map(oc, nc, key);
    let lis = lis_order(map);
    let rem = removals(oc, nc, key, path, l, oc.len() as int);
    let rest = opt_concat(
        lis_diffs(oc, nc, map, lis, path, key, sk, rp, lis.len() as int),
        opt_concat(
            after_last(oc, nc, map, lis, l, path, key, sk, rp),
            opt_concat(
                gaps(oc, nc, map, lis, l, path, key, sk, rp, lis.len() - 1),
                before_first(oc, nc, map, lis, l, path, key, sk, rp),
            ),
        ),
    );
    assert(lis.len() > 0);
    assert(opt_concat(Some(rem), rest) == Some(ps));
    lemma_opt_concat_some(Some(rem), rest, ps);
    assert(removed(oc, nc, key, i));
    lemma_removals_hold(oc, nc, key, path, l, oc.len() as int, i);
    let t = choose|t: int| 0 <= t < rem.len() && rem[t] == remove_patch(oc[i], path.push((l + i) as usize));
    assert(ps[t] == rem[t]);
}

/// A move among the patches of one part is a move among the patches of the whole.
proof fn lemma_moves_concat(a: Seq<PatchModel>, b: Seq<PatchModel>, p: Seq<usize>)
    ensures
        moves(a, p) ==> moves(a + b, p),
        moves(b, p) ==> moves(a + b, p),
{
    if moves(a, p) {
        let k = choose|k: int|
            0 <= k < a.len() && match #[trigger] a[k] {
                PatchModel::MoveBeforeNode { nodes_path, .. } => nodes_path.contains(p),
                PatchModel::MoveAfterNode { nodes_path, .. } => nodes_path.contains(p),
                _ => false,
            };
        assert((a + b)[k] == a[k]);
    }
    if moves(b, p) {
        let k = choose|k: int|
            0 <= k < b.len() && match #[trigger] b[k] {
                PatchModel::MoveBeforeNode { nodes_path, .. } => nodes_path.contains(p),
                PatchModel::MoveAfterNode { nodes_path, .. } => nodes_path.contains(p),
                _ => false,
            };
        assert((a + b)[a.len() + k] == b[k]);
    }
}

/// The paths of the old children matched by the new children from `a` to `b` are among the
/// ones the scan collects for moving.
proof fn lemma_scan_paths(
    oc: Seq<Node>,
    nc: Seq<Node>,
    map: Seq<usize>,
    l: int,
    path: Seq<usize>,
    key: Seq<char>,
    sk: spec_fn(Node, Node) -> bool,
    rp: spec_fn(Node, Node) -> bool,
    a: int,
    b: int,
    j: int,
)
    requires
        a <= j < b,
        map[j] != unmatched(),
    ensures
        scan(oc, nc, map, l, path, key, sk, rp, a, b).2.contains(path.push((l + map[j]) as usize)),
    decreases b - a,
{
    let prev = scan(oc, nc, map, l, path, key, sk, rp, a, b - 1);
    let p = path.push((l + map[j]) as usize);
    if j == b - 1 {
        assert(prev.2.push(p)[prev.2.len() as int] == p);
    } else {
        lemma_scan_paths(oc, nc, map, l, path, key, sk, rp, a, b - 1, j);
        let i = choose|i: int| 0 <= i < prev.2.len() && prev.2[i] == p;
        if map[b - 1] != unmatched() {
            assert(prev.2.push(path.push((l + map[b - 1]) as usize))[i] == p);
        }
    }
}

/// A new child after the last of the subsequence that an old child matches is moved by the
/// patches after it.
proof fn lemma_after_last_moves(
    oc: Seq<Node>,
    nc: Seq<Node>,
    map: Seq<usize>,
    lis: Seq<usize>,
    l: int,
    path: Seq<usize>,
    key: Seq<char>,
    sk: spec_fn(Node, Node) -> bool,
    rp: spec_fn(Node, Node) -> bool,
    j: int,
    al: Seq<PatchModel>,
)
    requires
        after_last(oc, nc, map, lis, l, path, key, sk, rp) == Some(al),
        lis.last() < j < nc.len(),
        map[j] != unmatched(),
    ensures
        moves(al, path.push((l + map[j]) as usize)),
{
    let last = lis.last() as int;
    let p = path.push((l + map[j]) as usize);
    let s = scan(oc, nc, map, l, path, key, sk, rp, last + 1, nc.len() as int);
    lemma_scan_paths(oc, nc, map, l, path, key, sk, rp, last + 1, nc.len() as int, j);
    assert(s.2.len() > 0);
    let oi = map[last];
    let mv = seq![
        PatchModel::MoveAfterNode {
            tag: crate::node::tag_of(oc[l + last]),
            patch_path: path.push((l + last) as usize),
            nodes_path: s.2,
        },
    ];
    let ins: Seq<PatchModel> = if s.1.len() > 0 {
        seq![
            PatchModel::InsertAfterNode {
                tag: crate::node::tag_of(oc[oi as int]),
                patch_path: path.push((l + oi) as usize),
                nodes: s.1,
            },
        ]
    } else {
        Seq::empty()
    };
    let moves_part = if l + last < oc.len() {
        Some(mv)
    } else {
        None
    };
    lemma_opt_concat_some(s.0, opt_concat(moves_part, Some(ins)), al);
    lemma_opt_concat_some(moves_part, Some(ins), opt_concat(moves_part, Some(ins))->0);
    assert(mv[0] is MoveAfterNode);
    assert(moves(mv, p));
    lemma_moves_concat(mv, ins, p);
    lemma_moves_concat(s.0->0, opt_concat(moves_part, Some(ins))->0, p);
}

/// A new child before the first of the subsequence that an old child matches is moved by the
/// patches before it.
proof fn lemma_before_first_moves(
    oc: Seq<Node>,
    nc: Seq<Node>,
    map: Seq<usize>,
    lis: Seq<usize>,
    l: int,
    path: Seq<usize>,
    key: Seq<char>,
    sk: spec_fn(Node, Node) -> bool,
    rp: spec_fn(Node, Node) -> bool,
    j: int,
    bf: Seq<PatchModel>,
)
    requires
        before_first(oc, nc, map, lis, l, path, key, sk, rp) == Some(bf),
        0 <= j < lis[0],
        map[j] != unmatched(),
    ensures
        moves(bf, path.push((l + map[j]) as usize)),
{
    let first = lis[0] as int;
    let p = path.push((l + map[j]) as usize);
    let s = scan(oc, nc, map, l, path, key, sk, rp, 0, first);
    lemma_scan_paths(oc, nc, map, l, path, key, sk, rp, 0, first, j);
    assert(s.2.len() > 0);
    let mv = seq![
        PatchModel::MoveBeforeNode {
            tag: crate::node::tag_of(oc[l]),
            patch_path: path.push(l as usize),
            nodes_path: s.2,
        },
    ];
    let moves_part = if l < oc.len() {
        Some(mv)
    } else {
        None
    };
    let oi = map[first];
    let inserts_part = if s.1.len() > 0 {
        if (oi as int) < oc.len() {
            Some(
                seq![
                    PatchModel::InsertBeforeNode {
                        tag: crate::node::tag_of(oc[oi as int]),
                        patch_path: path.push((l + oi) as usize),
                        nodes: s.1,
                    },
                ],
            )
        } else {
            None
        }
    } else {
        Some(Seq::empty())
    };
    lemma_opt_concat_some(s.0, opt_concat(moves_part, inserts_part), bf);
    lemma_opt_concat_some(moves_part, inserts_part, opt_concat(moves_part, inserts_part)->0);
    assert(mv[0] is MoveBeforeNode);
    assert(moves(mv, p));
    lemma_moves_concat(mv, inserts_part->0, p);
    lemma_moves_concat(s.0->0, opt_concat(moves_part, inserts_part)->0, p);
}

/// Every new child before the first or after the last of an increasing subsequence of matched
/// new children, when an old child has its key, has the first such old child moved: before the
/// first old child of the middle, or after the old child at the position of the last of the
/// subsequence. The patches are those of `diff_around_lis`, with the map that holds, for each
/// new child, the position of the first old child with its key.
pub proof fn lemma_matched_outer_children_moved(
    oc: Seq<Node>,
    nc: Seq<Node>,
    lis: Seq<usize>,
    l: int,
    path: Seq<usize>,
    key: Seq<char>,
    sk: spec_fn(Node, Node) -> bool,
    rp: spec_fn(Node, Node) -> bool,
    j: int,
    ps: Seq<PatchModel>,
)
    requires
        lis.len() > 0,
        opt_concat(
            lis_diffs(oc, nc, index_map(oc, nc, key), lis, path, key, sk, rp, lis.len() as int),
            opt_concat(
                after_last(oc, nc, index_map(oc, nc, key), lis, l, path, key, sk, rp),
                opt_concat(
                    gaps(oc, nc, index_map(oc, nc, key), lis, l, path, key, sk, rp, lis.len() - 1),
                    before_first(oc, nc, index_map(oc, nc, key), lis, l, path, key, sk, rp),
                ),
            ),
        ) == Some(ps),
        0 <= j < nc.len(),
        j < lis[0] || lis.last() < j,
        index_map(oc, nc, key)[j] != unmatched(),
    ensures
        moves(ps, path.push((l + index_map(oc, nc, key)[j]) as usize)),
{
    let map = index_map(oc, nc, key);
    let p = path.push((l + map[j]) as usize);
    let ld = lis_diffs(oc, nc, map, lis, path, key, sk, rp, lis.len() as int);
    let al = after_last(oc, nc, map, lis, l, path, key, sk, rp);
    let gp = gaps(oc, nc, map, lis, l, path, key, sk, rp, lis.len() - 1);
    let bf = before_first(oc, nc, map, lis, l, path, key, sk, rp);
    lemma_opt_concat_some(ld, opt_concat(al, opt_concat(gp, bf)), ps);
    let r1 = opt_concat(al, opt_concat(gp, bf))->0;
    lemma_opt_concat_some(al, opt_concat(gp, bf), r1);
    let r2 = opt_concat(gp, bf)->0;
    lemma_opt_concat_some(gp, bf, r2);
    if j > lis.last() {
        lemma_after_last_moves(oc, nc, map, lis, l, path, key, sk, rp, j, al->0);
        lemma_moves_concat(al->0, r2, p);
    } else {
        lemma_before_first_moves(oc, nc, map, lis, l, path, key, sk, rp, j, bf->0);
        lemma_moves_concat(gp->0, bf->0, p);
        lemma_moves_concat(al->0, r2, p);
    }
    lemma_moves_concat(ld->0, r1, p);
}

/// In the keyed diff of the children between the matched ends, when no new child has the key of
/// an old one, every old child from the second on is removed at its position counted from the
/// first of them, and the new children, all of them and in their order, replace the node at
/// the position `l` of the first of them.
pub proof fn lemma_unshared_middle_replaced(
    oc: Seq<Node>,
    nc: Seq<Node>,
    l: int,
    path: Seq<usize>,
    key: Seq<char>,
    sk: spec_fn(Node, Node) -> bool,
    rp: spec_fn(Node, Node) -> bool,
    ps: Seq<PatchModel>,
)
    requires
        keyed_middle(oc, nc, l, path, key, sk, rp) == Some(ps),
        !any_shared(oc, nc, key),
        oc.len() > 0,
    ensures
        forall|i: int|
            1 <= i < oc.len() ==> ps.contains(
                #[trigger] remove_patch(oc[i], path.push(i as usize)),
            ),
        ps.contains(
            PatchModel::ReplaceNode {
                tag: crate::node::tag_of(oc[l]),
                patch_path: path.push(l as usize),
                replacement: nc,
            },
        ),
{
    let rm = removes_range(oc, path, 1, oc.len() as int);
    let rep = PatchModel::ReplaceNode {
        tag: crate::node::tag_of(oc[l]),
        patch_path: path.push(l as usize),
        replacement: nc,
    };
    assert(ps == rm + seq![rep]);
    assert forall|i: int| 1 <= i < oc.len() implies ps.contains(
        #[trigger] remove_patch(oc[i], path.push(i as usize)),
    ) by {
        assert(ps[i - 1] == rm[i - 1]);
    }
    assert(ps[rm.len() as int] == rep);
}

/// Between the matched ends at `l` and `r`, when no new child is left, every old child left is
/// removed at its position.
pub proof fn lemma_middle_old_left_removed(
    olds: Seq<Node>,
    news: Seq<Node>,
    path: Seq<usize>,
    key: Seq<char>,
    sk: spec_fn(Node, Node) -> bool,
    rp: spec_fn(Node, Node) -> bool,
    l: int,
    r: int,
    ps: Seq<PatchModel>,
    i: int,
)
    requires
        middle(olds, news, path, key, sk, rp, l, r) == Some(ps),
        news.len() - r <= l,
        l <= i < olds.len() - r,
    ensures
        ps.contains(remove_patch(olds[i], path.push(i as usize))),
{
    let rm = removes_range(olds, path, l, olds.len() - r);
    assert(ps == rm);
    assert(ps[i - l] == remove_patch(olds[i], path.push(i as usize)));
}

/// Between the matched ends at `l` and `r`, when no old child is left, every new child left is
/// inserted.
pub proof fn lemma_middle_new_left_inserted(
    olds: Seq<Node>,
    news: Seq<Node>,
    path: Seq<usize>,
    key: Seq<char>,
    sk: spec_fn(Node, Node) -> bool,
    rp: spec_fn(Node, Node) -> bool,
    l: int,
    r: int,
    ps: Seq<PatchModel>,
    j: int,
)
    requires
        middle(olds, news, path, key, sk, rp, l, r) == Some(ps),
        olds.len() - r <= l,
        l <= j < news.len() - r,
    ensures
        inserts(ps, news[j]),
{
    let nm = news.subrange(l, news.len() - r);
    assert(nm[j - l] == news[j]);
    assert(ps[0] is InsertBeforeNode);
}

} // verus!

//! The generalized indices that an inclusion proof carries.
use crate::merkle_tree_overlay::{index_bits, path_view, resolve, Shape};
use crate::node::{Error, ErrorView, NodeView, PathElement};
use crate::ser::{distinct_indices, Record, RecordView};
use crate::tree_arithmetic::{lemma_pow2_high, lemma_pow2_monotone, lemma_pow2_step, lemma_pow2_zero};
use vstd::arithmetic::power2::{lemma2_to64, pow2};
use vstd::prelude::*;

verus! {

/// Parent of the non-root node `i`.
pub open spec fn parent(i: nat) -> nat {
    ((i - 1) / 2) as nat
}

/// The other child of the parent of the non-root node `i`.
pub open spec fn sibling(i: nat) -> nat {
    if i % 2 == 1 {
        i + 1
    } else {
        (i - 1) as nat
    }
}

/// `a` lies on the path from node `i` up to the root, `i` itself included.
pub open spec fn on_branch(a: nat, i: nat) -> bool
    decreases i,
{
    if a == i {
        true
    } else if i == 0 {
        false
    } else {
        on_branch(a, parent(i))
    }
}

/// `a` lies on the branch of one of `leaves`.
pub open spec fn on_some_branch(a: nat, leaves: Seq<u64>) -> bool {
    exists|j: int| 0 <= j < leaves.len() && on_branch(a, #[trigger] leaves[j] as nat)
}

/// The nodes whose chunks a proof for `leaves` must supply besides the
/// leaves: the siblings of nodes on the leaves' branches that do not lie on a
/// branch themselves, and so cannot be computed from the leaves.
pub open spec fn helper_indices(leaves: Seq<u64>) -> Set<nat> {
    Set::new(
        |h: nat| h != 0 && on_some_branch(sibling(h), leaves) && !on_some_branch(h, leaves),
    )
}

proof fn lemma_sibling_involution(i: nat)
    requires
        i > 0,
    ensures
        sibling(i) > 0,
        sibling(sibling(i)) == i,
{
}

proof fn lemma_on_branch_trans(a: nat, x: nat, i: nat)
    requires
        on_branch(x, i),
        on_branch(a, x),
    ensures
        on_branch(a, i),
    decreases i,
{
    if x != i && i != 0 {
        lemma_on_branch_trans(a, x, parent(i));
    }
}

proof fn lemma_on_branch_le(a: nat, i: nat)
    requires
        on_branch(a, i),
    ensures
        a <= i,
    decreases i,
{
    if a != i && i != 0 {
        lemma_on_branch_le(a, parent(i));
    }
}

/// Every node on the branch of one of `leaves`.
fn branch_nodes(leaves: &Vec<u64>) -> (r: Vec<u64>)
    ensures
        forall|a: u64| r@.contains(a) <==> on_some_branch(a as nat, leaves@),
{
    let mut out: Vec<u64> = Vec::new();
    let mut i: usize = 0;
    while i < leaves.len()
        invariant
            i <= leaves@.len(),
            forall|a: u64| out@.contains(a) <==> on_some_branch(a as nat, leaves@.take(i as int)),
        decreases leaves@.len() - i,
    {
        let leaf = leaves[i];
        let ghost prev = out@;
        let next = with_branch(out, leaf);
        out = next;
        proof {
            assert forall|a: u64|
                on_some_branch(a as nat, leaves@.take(i + 1)) <==> (on_some_branch(
                    a as nat,
                    leaves@.take(i as int),
                ) || on_branch(a as nat, leaf as nat)) by {
                let t1 = leaves@.take(i + 1);
                let t0 = leaves@.take(i as int);
                if on_some_branch(a as nat, t1) {
                    let j = choose|j: int| 0 <= j < t1.len() && on_branch(a as nat, #[trigger] t1[j] as nat);
                    if j < i {
                        assert(t0[j] == t1[j]);
                    }
                }
                if on_some_branch(a as nat, t0) {
                    let j = choose|j: int| 0 <= j < t0.len() && on_branch(a as nat, #[trigger] t0[j] as nat);
                    assert(t0[j] == t1[j]);
                }
                if on_branch(a as nat, leaf as nat) {
                    assert(t1[i as int] == leaf);
                }
            }
            assert forall|a: u64|
                out@.contains(a) <==> on_some_branch(a as nat, leaves@.take(i + 1)) by {
                assert(prev.contains(a) <==> on_some_branch(a as nat, leaves@.take(i as int)));
                assert(out@.contains(a) <==> (prev.contains(a) || on_branch(a as nat, leaf as nat)));
                assert(on_some_branch(a as nat, leaves@.take(i + 1)) <==> (on_some_branch(
                    a as nat,
                    leaves@.take(i as int),
                ) || on_branch(a as nat, leaf as nat)));
            }
        }
        i = i + 1;
    }
    assert(leaves@.take(leaves@.len() as int) =~= leaves@);
    out
}

/// Whether `v` holds `x`.
fn holds(v: &Vec<u64>, x: u64) -> (r: bool)
    ensures
        r == v@.contains(x),
{
    let mut i: usize = 0;
    while i < v.len()
        invariant
            i <= v@.len(),
            forall|j: int| 0 <= j < i ==> v@[j] != x,
        decreases v@.len() - i,
    {
        if v[i] == x {
            return true;
        }
        i = i + 1;
    }
    false
}

proof fn lemma_push_contains(s: Seq<u64>, x: u64)
    ensures
        forall|a: u64| s.push(x).contains(a) <==> (s.contains(a) || a == x),
{
    assert forall|a: u64| s.push(x).contains(a) <==> (s.contains(a) || a == x) by {
        if s.contains(a) {
            let j = choose|j: int| 0 <= j < s.len() && s[j] == a;
            assert(s.push(x)[j] == a);
        }
        if a == x {
            assert(s.push(x)[s.len() as int] == x);
        }
        if s.push(x).contains(a) {
            let j = choose|j: int| 0 <= j < s.len() + 1 && s.push(x)[j] == a;
            if j < s.len() {
                assert(s[j] == a);
            }
        }
    }
}

/// `nodes` followed by every node on the branch of `leaf`.
fn with_branch(nodes: Vec<u64>, leaf: u64) -> (r: Vec<u64>)
    ensures
        forall|a: u64| #[trigger] r@.contains(a) <==> (nodes@.contains(a) || on_branch(a as nat, leaf as nat)),
{
    let ghost start = nodes@;
    let mut out = nodes;
    let mut x: u64 = leaf;
    proof {
        lemma_push_contains(out@, x);
    }
    out.push(x);
    while x != 0
        invariant
            on_branch(x as nat, leaf as nat),
            forall|a: u64|
                out@.contains(a) <==> (start.contains(a) || (on_branch(a as nat, leaf as nat) && (
                !on_branch(a as nat, x as nat) || a == x))),
        decreases x,
    {
        let ghost prev = out@;
        let ghost xo = x;
        let p: u64 = (x - 1) / 2;
        proof {
            lemma_push_contains(out@, p);
            assert forall|a: u64|
                on_branch(a as nat, x as nat) <==> (a == x || on_branch(a as nat, p as nat)) by {}
            if on_branch(x as nat, p as nat) {
                lemma_on_branch_le(x as nat, p as nat);
            }
            assert(on_branch(p as nat, x as nat));
            lemma_on_branch_trans(p as nat, x as nat, leaf as nat);
        }
        out.push(p);
        x = p;
        proof {
            assert forall|a: u64|
                out@.contains(a) <==> (start.contains(a) || (on_branch(a as nat, leaf as nat) && (
                !on_branch(a as nat, x as nat) || a == x))) by {
                assert(prev.contains(a) <==> (start.contains(a) || (on_branch(a as nat, leaf as nat) && (
                !on_branch(a as nat, xo as nat) || a == xo))));
            }
        }
    }
    out
}

/// The generalized indices that a proof for `leaves` carries besides the
/// leaves themselves: every sibling needed to hash each leaf up to the root
/// that cannot be computed from the leaves, each once.
pub fn proof_indices(leaves: &Vec<u64>) -> (r: Vec<u64>)
    requires
        forall|j: int| 0 <= j < leaves@.len() ==> leaves@[j] < u64::MAX,
    ensures
        forall|h: u64| #[trigger] r@.contains(h) <==> helper_indices(leaves@).contains(h as nat),
        r@.no_duplicates(),
{
    let branch = branch_nodes(leaves);
    proof {
        assert forall|k: int| 0 <= k < branch@.len() implies branch@[k] < u64::MAX by {
            assert(branch@.contains(branch@[k]));
            let j = choose|j: int|
                0 <= j < leaves@.len() && on_branch(branch@[k] as nat, #[trigger] leaves@[j] as nat);
            lemma_on_branch_le(branch@[k] as nat, leaves@[j] as nat);
        }
    }
    let mut out: Vec<u64> = Vec::new();
    let mut i: usize = 0;
    while i < branch.len()
        invariant
            i <= branch@.len(),
            forall|k: int| 0 <= k < branch@.len() ==> branch@[k] < u64::MAX,
            forall|a: u64| #[trigger] branch@.contains(a) <==> on_some_branch(a as nat, leaves@),
            forall|h: u64|
                #[trigger] out@.contains(h) <==> (h != 0 && !branch@.contains(h) && exists|k: int|
                    0 <= k < i && branch@[k] != 0 && sibling(#[trigger] branch@[k] as nat) == h),
            out@.no_duplicates(),
        decreases branch@.len() - i,
    {
        let a = branch[i];
        let ghost prev = out@;
        if a != 0 {
            let s: u64 = if a % 2 == 1 {
                a + 1
            } else {
                a - 1
            };
            proof {
                lemma_push_contains(out@, s);
            }
            if !holds(&branch, s) && !holds(&out, s) {
                out.push(s);
                proof {
                    assert forall|x: int, y: int|
                        0 <= x < out@.len() && 0 <= y < out@.len() && x != y implies out@[x]
                        != out@[y] by {
                        if x < prev.len() && y < prev.len() {
                            assert(prev[x] != prev[y]);
                        } else if x < prev.len() {
                            assert(prev.contains(out@[x]));
                        } else if y < prev.len() {
                            assert(prev.contains(out@[y]));
                        }
                    }
                }
            }
            assert(!branch@.contains(s) ==> out@.contains(s));
            assert(forall|h: u64| #[trigger] out@.contains(h) ==> prev.contains(h) || (h == s && !branch@.contains(h)));
        }
        proof {
            assert forall|h: u64|
                #[trigger] out@.contains(h) <==> (h != 0 && !branch@.contains(h) && exists|k: int|
                    0 <= k < i + 1 && branch@[k] != 0 && sibling(#[trigger] branch@[k] as nat) == h) by {
                if out@.contains(h) && !prev.contains(h) {
                    assert(branch@[i as int] != 0 && sibling(branch@[i as int] as nat) == h);
                }
                if prev.contains(h) {
                    let k = choose|k: int|
                        0 <= k < i && branch@[k] != 0 && sibling(#[trigger] branch@[k] as nat) == h;
                    assert(0 <= k < i + 1 && branch@[k] != 0 && sibling(branch@[k] as nat) == h);
                    assert(out@ == prev || out@ == prev.push(out@.last()));
                }
                if exists|k: int|
                    0 <= k < i + 1 && branch@[k] != 0 && sibling(#[trigger] branch@[k] as nat) == h {
                    let k = choose|k: int|
                        0 <= k < i + 1 && branch@[k] != 0 && sibling(#[trigger] branch@[k] as nat) == h;
                    if k < i && h != 0 && !branch@.contains(h) {
                        assert(prev.contains(h));
                    }
                }
            }
        }
        i = i + 1;
    }
    proof {
        assert forall|h: u64| #[trigger] out@.contains(h) <==> helper_indices(leaves@).contains(h as nat) by {
            if h != 0 {
                lemma_sibling_involution(h as nat);
                let sh = sibling(h as nat);
                if out@.contains(h) {
                    let k = choose|k: int|
                        0 <= k < branch@.len() && branch@[k] != 0 && sibling(#[trigger] branch@[k] as nat) == h;
                    lemma_sibling_involution(branch@[k] as nat);
                    assert(branch@.contains(branch@[k]));
                }
                if helper_indices(leaves@).contains(h as nat) {
                    let j = choose|j: int|
                        0 <= j < leaves@.len() && on_branch(sh, #[trigger] leaves@[j] as nat);
                    lemma_on_branch_le(sh, leaves@[j] as nat);
                    let a = sh as u64;
                    assert(branch@.contains(a));
                    let k = choose|k: int| 0 <= k < branch@.len() && branch@[k] == a;
                    assert(sibling(branch@[k] as nat) == h);
                }
            }
        }
    }
    out
}

/// Model of the node that `path` names in `shape`, where it resolves.
pub open spec fn resolved(shape: Shape, path: Vec<PathElement>) -> Result<NodeView, ErrorView> {
    resolve(shape, path_view(path@))
}

/// Resolves each of `paths` against `shape` and returns the generalized
/// indices that a proof for the named nodes carries besides the nodes
/// themselves; fails with the error of the first path that does not resolve.
pub fn required_helper_indices(shape: &Shape, paths: &Vec<Vec<PathElement>>) -> (r: Result<
    Vec<u64>,
    Error,
>)
    requires
        shape.well_formed(),
    ensures
        r is Ok <==> forall|j: int| 0 <= j < paths@.len() ==> #[trigger] resolved(*shape, paths@[j]) is Ok,
        r is Ok ==> forall|h: u64| #[trigger] (r->Ok_0)@.contains(h) <==> helper_indices(
            Seq::new(paths@.len(), |j: int| (resolved(*shape, paths@[j])->Ok_0).index()),
        ).contains(h as nat),
        r is Err ==> exists|j: int|
            0 <= j < paths@.len() && (forall|k: int| 0 <= k < j ==> #[trigger] resolved(*shape, paths@[k]) is Ok)
                && resolved(*shape, paths@[j]) == Err::<NodeView, ErrorView>((r->Err_0)@),
{
    let mut leaves: Vec<u64> = Vec::new();
    let mut i: usize = 0;
    while i < paths.len()
        invariant
            shape.well_formed(),
            i <= paths@.len(),
            leaves@.len() == i,
            forall|k: int| 0 <= k < i ==> #[trigger] resolved(*shape, paths@[k]) is Ok,
            forall|k: int|
                0 <= k < i ==> #[trigger] leaves@[k] == (resolved(*shape, paths@[k])->Ok_0).index(),
            forall|k: int| 0 <= k < i ==> #[trigger] leaves@[k] < u64::MAX,
        decreases paths@.len() - i,
    {
        let path = &paths[i];
        proof {
            assert(path_view(path@).subrange(0, path@.len() as int) =~= path_view(path@));
        }
        match shape.get_node_from(path, 0) {
            Ok(node) => {
                proof {
                    lemma_pow2_high();
                    lemma_pow2_monotone(index_bits(*shape), 63);
                }
                leaves.push(node.get_index());
            },
            Err(e) => {
                assert(resolved(*shape, paths@[i as int]) is Err);
                return Err(e);
            },
        }
        i = i + 1;
    }
    let r = proof_indices(&leaves);
    proof {
        assert(leaves@ =~= Seq::new(paths@.len(), |j: int| (resolved(*shape, paths@[j])->Ok_0).index()));
    }
    Ok(r)
}

/// Whether a proof that supplies chunks at the indices `supplied` lets the
/// root be recomputed for `leaves`: it holds every leaf and every helper
/// index. A proof that fails this is incomplete, whatever its chunks hold.
pub fn covers(supplied: &Vec<u64>, leaves: &Vec<u64>) -> (r: bool)
    requires
        forall|j: int| 0 <= j < leaves@.len() ==> leaves@[j] < u64::MAX,
    ensures
        r == ((forall|j: int| 0 <= j < leaves@.len() ==> supplied@.contains(#[trigger] leaves@[j]))
            && forall|h: u64| #[trigger] helper_indices(leaves@).contains(h as nat) ==> supplied@.contains(h)),
{
    let mut i: usize = 0;
    while i < leaves.len()
        invariant
            i <= leaves@.len(),
            forall|j: int| 0 <= j < i ==> supplied@.contains(#[trigger] leaves@[j]),
        decreases leaves@.len() - i,
    {
        if !holds(supplied, leaves[i]) {
            return false;
        }
        i = i + 1;
    }
    let helpers = proof_indices(leaves);
    let mut k: usize = 0;
    while k < helpers.len()
        invariant
            k <= helpers@.len(),
            forall|j: int| 0 <= j < k ==> supplied@.contains(#[trigger] helpers@[j]),
            forall|x: u64| #[trigger] helpers@.contains(x) <==> helper_indices(leaves@).contains(x as nat),
        decreases helpers@.len() - k,
    {
        if !holds(supplied, helpers[k]) {
            proof {
                let h = helpers@[k as int];
                assert(helpers@.contains(h));
                assert(helper_indices(leaves@).contains(h as nat));
                assert(!supplied@.contains(h));
            }
            return false;
        }
        k = k + 1;
    }
    proof {
        assert forall|h: u64| #[trigger] helper_indices(leaves@).contains(h as nat) implies supplied@.contains(h) by {
            assert(helpers@.contains(h));
            let j = choose|j: int| 0 <= j < helpers@.len() && helpers@[j] == h;
            assert(supplied@.contains(helpers@[j]));
        }
    }
    true
}

/// One of `records` has index `h`.
pub open spec fn has_index(records: Seq<Record>, h: u64) -> bool {
    exists|k: int| 0 <= k < records.len() && records[k].index == h
}

/// A copy of `v`.
fn copy_bytes(v: &Vec<u8>) -> (r: Vec<u8>)
    ensures
        r@ == v@,
{
    let mut r: Vec<u8> = Vec::new();
    let mut i: usize = 0;
    while i < v.len()
        invariant
            i <= v@.len(),
            r@ == v@.take(i as int),
        decreases v@.len() - i,
    {
        r.push(v[i]);
        proof {
            assert(v@.take(i + 1) =~= v@.take(i as int).push(v@[i as int]));
        }
        i = i + 1;
    }
    proof {
        assert(v@.take(i as int) =~= v@);
    }
    r
}

/// Appends the record of index `index` to `out` unless `out` has one.
fn add_record(out: Vec<Record>, tree: &Vec<Vec<u8>>, index: u64) -> (r: Vec<Record>)
    requires
        index < tree@.len(),
        distinct_indices(out@.map_values(|x: Record| x@)),
        forall|k: int| 0 <= k < out@.len() ==> (#[trigger] out@[k]).index < tree@.len()
            && out@[k].chunk@ == tree@[out@[k].index as int]@,
    ensures
        distinct_indices(r@.map_values(|x: Record| x@)),
        forall|k: int| 0 <= k < r@.len() ==> (#[trigger] r@[k]).index < tree@.len()
            && r@[k].chunk@ == tree@[r@[k].index as int]@,
        forall|h: u64| #[trigger] has_index(r@, h) <==> (has_index(out@, h) || h == index),
{
    let ghost start = out@;
    let mut k: usize = 0;
    while k < out.len()
        invariant
            k <= out@.len(),
            index < tree@.len(),
            distinct_indices(out@.map_values(|x: Record| x@)),
            forall|q: int| 0 <= q < out@.len() ==> (#[trigger] out@[q]).index < tree@.len()
                && out@[q].chunk@ == tree@[out@[q].index as int]@,
            forall|j: int| 0 <= j < k ==> (#[trigger] out@[j]).index != index,
        decreases out@.len() - k,
    {
        if out[k].index == index {
            return out;
        }
        k = k + 1;
    }
    let tree_len = tree.len();
    assert(index < tree_len);
    let chunk = copy_bytes(&tree[index as usize]);
    let mut r = out;
    let ghost prev = r@;
    r.push(Record { index, chunk });
    proof {
        let vs = r@.map_values(|x: Record| x@);
        let ps = prev.map_values(|x: Record| x@);
        assert forall|q: int| 0 <= q < r@.len() implies (#[trigger] r@[q]).index < tree@.len()
            && r@[q].chunk@ == tree@[r@[q].index as int]@ by {
            if q < prev.len() {
                assert(r@[q] == prev[q]);
            }
        }
        assert forall|a: int, b: int| 0 <= a < vs.len() && 0 <= b < vs.len() && a != b implies vs[a].index
            != vs[b].index by {
            if a < prev.len() && b < prev.len() {
                assert(vs[a] == ps[a] && vs[b] == ps[b]);
            }
        }
        assert(prev == start);
        assert forall|h: u64| #[trigger] has_index(r@, h) <==> (has_index(prev, h) || h == index) by {
            if has_index(r@, h) {
                let k = choose|k: int| 0 <= k < r@.len() && r@[k].index == h;
                if k < prev.len() {
                    assert(prev[k] == r@[k]);
                }
            }
            if has_index(prev, h) {
                let k = choose|k: int| 0 <= k < prev.len() && prev[k].index == h;
                assert(r@[k] == prev[k]);
            }
            if h == index {
                assert(r@[prev.len() as int].index == h);
            }
        }
    }
    r
}

/// The records of a proof for `leaves`, read from the chunks of the whole
/// tree (`tree[i]` is the chunk at generalized index `i`): one record for
/// each leaf and each helper index, holding that index's chunk.
pub fn build_records(tree: &Vec<Vec<u8>>, leaves: &Vec<u64>) -> (r: Vec<Record>)
    requires
        tree@.len() % 2 == 1,
        forall|j: int| 0 <= j < leaves@.len() ==> leaves@[j] < tree@.len(),
    ensures
        built_from(r@, tree@, leaves@),
{
    let mut out: Vec<Record> = Vec::new();
    let mut i: usize = 0;
    proof {
        assert(out@.map_values(|x: Record| x@) =~= Seq::<RecordView>::empty());
    }
    while i < leaves.len()
        invariant
            i <= leaves@.len(),
            forall|j: int| 0 <= j < leaves@.len() ==> leaves@[j] < tree@.len(),
            distinct_indices(out@.map_values(|x: Record| x@)),
            forall|k: int| 0 <= k < out@.len() ==> (#[trigger] out@[k]).index < tree@.len()
                && out@[k].chunk@ == tree@[out@[k].index as int]@,
            forall|h: u64|
                has_index(out@, h) <==> (exists|j: int|
                    0 <= j < i && leaves@[j] == h),
        decreases leaves@.len() - i,
    {
        let ghost prev = out@;
        out = add_record(out, tree, leaves[i]);
        proof {
            assert forall|h: u64|
                has_index(out@, h) <==> (exists|j: int|
                    0 <= j < i + 1 && leaves@[j] == h) by {
                if h == leaves@[i as int] {
                    assert(0 <= i < i + 1 && leaves@[i as int] == h);
                }
                if exists|j: int| 0 <= j < i + 1 && leaves@[j] == h {
                    let j = choose|j: int| 0 <= j < i + 1 && leaves@[j] == h;
                    if j < i {
                        assert(has_index(prev, h));
                    }
                }
            }
        }
        i = i + 1;
    }
    let tree_len = tree.len();
    proof {
        assert forall|h: u64| leaves@.contains(h) <==> (exists|j: int| 0 <= j < leaves@.len() && leaves@[j] == h) by {}
        assert forall|j: int| 0 <= j < leaves@.len() implies leaves@[j] < u64::MAX by {}
    }
    let helpers = proof_indices(leaves);
    let mut k: usize = 0;
    while k < helpers.len()
        invariant
            k <= helpers@.len(),
            tree@.len() % 2 == 1,
            forall|j: int| 0 <= j < leaves@.len() ==> leaves@[j] < tree@.len(),
            forall|x: u64| #[trigger] helpers@.contains(x) <==> helper_indices(leaves@).contains(x as nat),
            distinct_indices(out@.map_values(|x: Record| x@)),
            forall|q: int| 0 <= q < out@.len() ==> (#[trigger] out@[q]).index < tree@.len()
                && out@[q].chunk@ == tree@[out@[q].index as int]@,
            forall|h: u64|
                has_index(out@, h) <==> (leaves@.contains(h)
                    || exists|j: int| 0 <= j < k && helpers@[j] == h),
        decreases helpers@.len() - k,
    {
        let h = helpers[k];
        proof {
            assert(helpers@.contains(h));
            let sh = sibling(h as nat);
            let j = choose|j: int| 0 <= j < leaves@.len() && on_branch(sh, #[trigger] leaves@[j] as nat);
            lemma_on_branch_le(sh, leaves@[j] as nat);
            lemma_sibling_involution(h as nat);
        }
        let ghost prev = out@;
        out = add_record(out, tree, h);
        proof {
            assert forall|x: u64|
                has_index(out@, x) <==> (leaves@.contains(x)
                    || exists|j: int| 0 <= j < k + 1 && helpers@[j] == x) by {
                if x == h {
                    assert(0 <= k < k + 1 && helpers@[k as int] == x);
                }
                if exists|j: int| 0 <= j < k + 1 && helpers@[j] == x {
                    let j = choose|j: int| 0 <= j < k + 1 && helpers@[j] == x;
                    if j < k {
                        assert(has_index(prev, x));
                    }
                }
                if leaves@.contains(x) {
                    assert(has_index(prev, x));
                }
            }
        }
        k = k + 1;
    }
    proof {
        assert forall|x: u64|
            has_index(out@, x) <==> (leaves@.contains(x)
                || helper_indices(leaves@).contains(x as nat)) by {
            if helper_indices(leaves@).contains(x as nat) {
                assert(helpers@.contains(x));
                let j = choose|j: int| 0 <= j < helpers@.len() && helpers@[j] == x;
                assert(exists|j: int| 0 <= j < helpers@.len() && helpers@[j] == x);
            }
            if exists|j: int| 0 <= j < helpers@.len() && helpers@[j] == x {
                let j = choose|j: int| 0 <= j < helpers@.len() && helpers@[j] == x;
                assert(helpers@.contains(x));
            }
        }
    }
    out
}

/// The SHA-256 digest of `left` followed by `right`.
pub uninterp spec fn sha256_concat(left: Seq<u8>, right: Seq<u8>) -> Seq<u8>;

/// Relies on `ethereum_hashing::hash32_concat`: the 32-byte SHA-256 digest
/// of the two slices one after the other.
#[verifier::external_body]
fn hash_children(left: &Vec<u8>, right: &Vec<u8>) -> (r: Vec<u8>)
    ensures
        r@ == sha256_concat(left@, right@),
        r@.len() == 32,
{
    ethereum_hashing::hash32_concat(left, right).to_vec()
}

/// `k` is the first of `records` with index `i`.
pub open spec fn first_match(records: Seq<RecordView>, i: nat, k: int) -> bool {
    0 <= k < records.len() && records[k].index == i && forall|j: int|
        0 <= j < k ==> records[j].index != i
}

/// The chunk that the first record with index `i` holds, if there is one.
pub open spec fn chunk_at(records: Seq<RecordView>, i: nat) -> Option<Seq<u8>> {
    if exists|k: int| first_match(records, i, k) {
        Some(records[choose|k: int| first_match(records, i, k)].chunk)
    } else {
        None
    }
}

/// The chunk of node `i` that `records` determine: its own record's chunk,
/// or else the hash of its children's chunks, looking at most `depth` levels
/// below it.
pub open spec fn node_value(records: Seq<RecordView>, i: nat, depth: nat) -> Option<Seq<u8>>
    decreases depth,
{
    match chunk_at(records, i) {
        Some(c) => Some(c),
        None => if depth == 0 {
            None
        } else {
            match (node_value(records, 2 * i + 1, (depth - 1) as nat), node_value(records, 2 * i + 2, (depth - 1) as nat)) {
                (Some(l), Some(r)) => Some(sha256_concat(l, r)),
                _ => None,
            }
        },
    }
}

/// The root chunk that `records` determine, if they determine one.
pub open spec fn root_of(records: Seq<RecordView>) -> Option<Seq<u8>> {
    node_value(records, 0, 64)
}

pub open spec fn bytes_view(o: Option<Vec<u8>>) -> Option<Seq<u8>> {
    match o {
        Some(v) => Some(v@),
        None => None,
    }
}

proof fn lemma_no_record_below_child(records: Seq<RecordView>, i: nat, c: nat)
    requires
        on_branch(i, c),
        forall|k: int| 0 <= k < records.len() ==> !on_branch(i, #[trigger] records[k].index as nat),
    ensures
        forall|k: int| 0 <= k < records.len() ==> !on_branch(c, #[trigger] records[k].index as nat),
{
    assert forall|k: int| 0 <= k < records.len() implies !on_branch(c, #[trigger] records[k].index as nat) by {
        if on_branch(c, records[k].index as nat) {
            lemma_on_branch_trans(i, c, records[k].index as nat);
        }
    }
}

proof fn lemma_no_record_below(records: Seq<RecordView>, i: nat, depth: nat)
    requires
        forall|k: int| 0 <= k < records.len() ==> !on_branch(i, #[trigger] records[k].index as nat),
    ensures
        node_value(records, i, depth) is None,
    decreases depth,
{
    if depth > 0 {
        assert(parent(2 * i + 1) == i);
        assert(parent(2 * i + 2) == i);
        assert(on_branch(i, i));
        assert(on_branch(i, 2 * i + 1));
        assert(on_branch(i, 2 * i + 2));
        lemma_no_record_below_child(records, i, 2 * i + 1);
        lemma_no_record_below_child(records, i, 2 * i + 2);
        lemma_no_record_below(records, 2 * i + 1, (depth - 1) as nat);
        lemma_no_record_below(records, 2 * i + 2, (depth - 1) as nat);
    }
    assert(!(exists|k: int| first_match(records, i, k)));
}

/// Whether node `i` lies on the branch of node `k`, that is, `k` is in the
/// subtree of `i`.
fn in_subtree(i: u64, k: u64) -> (r: bool)
    ensures
        r == on_branch(i as nat, k as nat),
{
    let mut x: u64 = k;
    while x > i
        invariant
            on_branch(i as nat, k as nat) == on_branch(i as nat, x as nat),
        decreases x,
    {
        x = (x - 1) / 2;
    }
    proof {
        if x != i && on_branch(i as nat, x as nat) {
            lemma_on_branch_le(i as nat, x as nat);
        }
    }
    x == i
}

/// The chunk of the first record with index `i`.
fn find_chunk(records: &Vec<Record>, i: u64) -> (r: Option<Vec<u8>>)
    ensures
        bytes_view(r) == chunk_at(records@.map_values(|x: Record| x@), i as nat),
{
    let ghost rs = records@.map_values(|x: Record| x@);
    let mut k: usize = 0;
    while k < records.len()
        invariant
            rs == records@.map_values(|x: Record| x@),
            k <= records@.len(),
            forall|j: int| 0 <= j < k ==> records@[j].index != i,
        decreases records@.len() - k,
    {
        if records[k].index == i {
            let c = copy_bytes(&records[k].chunk);
            proof {
                assert(first_match(rs, i as nat, k as int));
                let k0 = choose|k0: int| first_match(rs, i as nat, k0);
                assert(k0 == k);
            }
            return Some(c);
        }
        k = k + 1;
    }
    None
}

/// The chunk of node `i` that `records` determine (see `node_value`).
fn value_of(records: &Vec<Record>, i: u64, depth: u64) -> (r: Option<Vec<u8>>)
    ensures
        bytes_view(r) == node_value(records@.map_values(|x: Record| x@), i as nat, depth as nat),
    decreases depth,
{
    let ghost rs = records@.map_values(|x: Record| x@);
    let own = find_chunk(records, i);
    if own.is_some() {
        return own;
    }
    if depth == 0 {
        return None;
    }
    let mut below = false;
    let mut k: usize = 0;
    while k < records.len()
        invariant
            rs == records@.map_values(|x: Record| x@),
            k <= records@.len(),
            !below ==> forall|j: int| 0 <= j < k ==> !on_branch(i as nat, #[trigger] rs[j].index as nat),
        decreases records@.len() - k,
    {
        if in_subtree(i, records[k].index) {
            below = true;
        }
        k = k + 1;
    }
    if !below {
        proof {
            lemma_no_record_below(rs, i as nat, depth as nat);
        }
        return None;
    }
    if i > (u64::MAX - 2) / 2 {
        proof {
            let c = 2 * (i as nat) + 2;
            assert forall|k: int| 0 <= k < rs.len() implies !on_branch(c, #[trigger] rs[k].index as nat) by {
                if on_branch(c, rs[k].index as nat) {
                    lemma_on_branch_le(c, rs[k].index as nat);
                }
            }
            lemma_no_record_below(rs, c, (depth - 1) as nat);
        }
        return None;
    }
    let left = value_of(records, 2 * i + 1, depth - 1);
    let right = value_of(records, 2 * i + 2, depth - 1);
    match (left, right) {
        (Some(l), Some(r)) => Some(hash_children(&l, &r)),
        _ => None,
    }
}

/// The root chunk that `records` determine, hashing sibling chunks up from
/// the records; `None` when a chunk needed on the way is missing.
pub fn recompute_root(records: &Vec<Record>) -> (r: Option<Vec<u8>>)
    ensures
        bytes_view(r) == root_of(records@.map_values(|x: Record| x@)),
{
    value_of(records, 0, 64)
}

/// Whether `a` and `b` hold the same bytes.
fn same_bytes(a: &Vec<u8>, b: &Vec<u8>) -> (r: bool)
    ensures
        r == (a@ == b@),
{
    if a.len() != b.len() {
        return false;
    }
    let mut i: usize = 0;
    while i < a.len()
        invariant
            a@.len() == b@.len(),
            i <= a@.len(),
            forall|j: int| 0 <= j < i ==> a@[j] == b@[j],
        decreases a@.len() - i,
    {
        if a[i] != b[i] {
            return false;
        }
        i = i + 1;
    }
    proof {
        assert(a@ =~= b@);
    }
    true
}

/// Whether one of `records` has index `h`.
fn has_record(records: &Vec<Record>, h: u64) -> (r: bool)
    ensures
        r == has_index(records@, h),
{
    let mut k: usize = 0;
    while k < records.len()
        invariant
            k <= records@.len(),
            forall|j: int| 0 <= j < k ==> records@[j].index != h,
        decreases records@.len() - k,
    {
        if records[k].index == h {
            return true;
        }
        k = k + 1;
    }
    false
}

/// Checks a proof against the expected `root`: it passes when each of
/// `leaves` has a record and the records hash up to `root`.
pub fn verify_records(records: &Vec<Record>, leaves: &Vec<u64>, root: &Vec<u8>) -> (r: Result<
    (),
    Error,
>)
    ensures
        r is Ok <==> (forall|j: int| 0 <= j < leaves@.len() ==> #[trigger] has_index(records@, leaves@[j]))
            && root_of(records@.map_values(|x: Record| x@)) == Some(root@),
        r is Err ==> r->Err_0 == Error::VerificationFailed,
{
    let mut i: usize = 0;
    while i < leaves.len()
        invariant
            i <= leaves@.len(),
            forall|j: int| 0 <= j < i ==> #[trigger] has_index(records@, leaves@[j]),
        decreases leaves@.len() - i,
    {
        if !has_record(records, leaves[i]) {
            return Err(Error::VerificationFailed);
        }
        i = i + 1;
    }
    match recompute_root(records) {
        Some(computed) => if same_bytes(&computed, root) {
            Ok(())
        } else {
            Err(Error::VerificationFailed)
        },
        None => Err(Error::VerificationFailed),
    }
}

/// Every internal node of `tree` (node `i` at `tree[i]`) holds the hash of
/// its two children's chunks.
pub open spec fn is_hash_tree(tree: Seq<Vec<u8>>) -> bool {
    forall|i: int|
        0 <= i && 2 * i + 2 < tree.len() ==> (#[trigger] tree[i])@ == sha256_concat(
            tree[2 * i + 1]@,
            tree[2 * i + 2]@,
        )
}

proof fn lemma_child_on_branch(i: nat, l: nat)
    requires
        on_branch(i, l),
        i != l,
    ensures
        on_branch(2 * i + 1, l) || on_branch(2 * i + 2, l),
    decreases l,
{
    if parent(l) != i {
        lemma_child_on_branch(i, parent(l));
        let c = if on_branch(2 * i + 1, parent(l)) { 2 * i + 1 } else { 2 * i + 2 };
        assert(l != 0);
        assert(parent(l) < l);
        assert(on_branch(parent(l), parent(l)));
        assert(on_branch(parent(l), l));
        lemma_on_branch_trans(c, parent(l), l);
    } else {
        assert(l == 2 * i + 1 || l == 2 * i + 2);
    }
}

/// The facts about `records` that `build_records` states for `tree` and
/// `leaves`.
pub open spec fn built_from(records: Seq<Record>, tree: Seq<Vec<u8>>, leaves: Seq<u64>) -> bool {
    &&& distinct_indices(records.map_values(|x: Record| x@))
    &&& forall|k: int| 0 <= k < records.len() ==> (#[trigger] records[k]).chunk@ == tree[records[k].index as int]@
    &&& forall|h: u64| #[trigger] has_index(records, h) <==> (leaves.contains(h) || helper_indices(leaves).contains(h as nat))
}

proof fn lemma_recorded_chunk(records: Seq<Record>, tree: Seq<Vec<u8>>, leaves: Seq<u64>, i: u64)
    requires
        built_from(records, tree, leaves),
        has_index(records, i),
    ensures
        chunk_at(records.map_values(|x: Record| x@), i as nat) == Some(tree[i as int]@),
{
    let rs = records.map_values(|x: Record| x@);
    let k = choose|k: int| 0 <= k < records.len() && records[k].index == i;
    assert(rs[k] == records[k]@);
    assert forall|j: int| 0 <= j < k implies rs[j].index != i as nat by {
        assert(rs[j] == records[j]@);
    }
    assert(first_match(rs, i as nat, k));
    let k0 = choose|k0: int| first_match(rs, i as nat, k0);
    assert(k0 == k);
}

proof fn lemma_value_on_branch(
    records: Seq<Record>,
    tree: Seq<Vec<u8>>,
    leaves: Seq<u64>,
    i: nat,
    l: u64,
    d: nat,
)
    requires
        built_from(records, tree, leaves),
        is_hash_tree(tree),
        tree.len() % 2 == 1,
        tree.len() <= u64::MAX,
        leaves.contains(l),
        forall|j: int| 0 <= j < leaves.len() ==> leaves[j] < tree.len(),
        on_branch(i, l as nat),
        forall|m: u64| #[trigger] leaves.contains(m) && on_branch(i, m as nat) ==> m + 1 < (i + 1) * pow2(d + 1),
    ensures
        node_value(records.map_values(|x: Record| x@), i, d) == Some(tree[i as int]@),
    decreases d,
{
    let rs = records.map_values(|x: Record| x@);
    assert(l < tree.len()) by {
        let j = choose|j: int| 0 <= j < leaves.len() && leaves[j] == l;
    }
    lemma_on_branch_le(i, l as nat);
    let iu = i as u64;
    if has_index(records, iu) {
        lemma_recorded_chunk(records, tree, leaves, iu);
    } else {
        assert(chunk_at(rs, i) is None) by {
            if exists|k: int| first_match(rs, i, k) {
                let k = choose|k: int| first_match(rs, i, k);
                assert(rs[k] == records[k]@);
                assert(has_index(records, iu));
            }
        }
        assert(i != l);
        lemma_child_on_branch(i, l as nat);
        let c = if on_branch(2 * i + 1, l as nat) { 2 * i + 1 } else { 2 * i + 2 };
        let o = if c == 2 * i + 1 { 2 * i + 2 } else { 2 * i + 1 };
        lemma_on_branch_le(c, l as nat);
        assert(parent(2 * i + 1) == i);
        assert(parent(2 * i + 2) == i);
        assert(on_branch(i, i));
        assert(on_branch(i, c));
        assert(on_branch(i, o));
        if d == 0 {
            lemma_pow2_step(0);
            lemma_pow2_zero();
            assert(l + 1 < (i + 1) * pow2(0 + 1));
            assert(pow2(1) == 2);
            assert((i + 1) * pow2(1) == 2 * i + 2) by (nonlinear_arith)
                requires
                    pow2(1) == 2,
            ;
            assert(false);
        }
        let e = (d - 1) as nat;
        lemma_pow2_step(e + 1);
        assert forall|m: u64| #[trigger] leaves.contains(m) && on_branch(c, m as nat) implies m + 1 < (c + 1) * pow2(e + 1) by {
            assert(on_branch(i, c));
            lemma_on_branch_trans(i, c, m as nat);
            assert(m + 1 < (i + 1) * pow2(d + 1));
            assert((i + 1) * pow2(d + 1) <= (c + 1) * pow2(e + 1)) by (nonlinear_arith)
                requires
                    pow2(d + 1) == 2 * pow2(e + 1),
                    c + 1 >= 2 * (i + 1),
            ;
        }
        assert forall|m: u64| #[trigger] leaves.contains(m) && on_branch(o, m as nat) implies m + 1 < (o + 1) * pow2(e + 1) by {
            assert(on_branch(i, o));
            lemma_on_branch_trans(i, o, m as nat);
            assert(m + 1 < (i + 1) * pow2(d + 1));
            assert((i + 1) * pow2(d + 1) <= (o + 1) * pow2(e + 1)) by (nonlinear_arith)
                requires
                    pow2(d + 1) == 2 * pow2(e + 1),
                    o + 1 >= 2 * (i + 1),
            ;
        }
        lemma_value_on_branch(records, tree, leaves, c, l, e);
        // The other child lies on a leaf's branch, or is a helper index.
        if exists|j: int| 0 <= j < leaves.len() && on_branch(o, #[trigger] leaves[j] as nat) {
            let j = choose|j: int| 0 <= j < leaves.len() && on_branch(o, #[trigger] leaves[j] as nat);
            let m = leaves[j];
            assert(leaves.contains(m));
            assert(m < tree.len());
            lemma_value_on_branch(records, tree, leaves, o, m, e);
        } else {
            assert(sibling(o) == c);
            assert(on_some_branch(c, leaves)) by {
                let j = choose|j: int| 0 <= j < leaves.len() && leaves[j] == l;
            }
            assert(helper_indices(leaves).contains(o));
            let ou = o as u64;
            assert(has_index(records, ou));
            lemma_recorded_chunk(records, tree, leaves, ou);
        }
        assert(2 * i + 2 < tree.len());
        assert(tree[i as int]@ == sha256_concat(tree[2 * i + 1 as int]@, tree[2 * i + 2 as int]@));
    }
}

/// A proof built from a tree whose internal chunks are the hashes of their
/// children recomputes that tree's root, whatever leaves it was built for.
pub proof fn lemma_built_records_recompute_root(
    records: Seq<Record>,
    tree: Seq<Vec<u8>>,
    leaves: Seq<u64>,
)
    requires
        tree.len() % 2 == 1,
        tree.len() <= u64::MAX,
        is_hash_tree(tree),
        leaves.len() > 0,
        forall|j: int| 0 <= j < leaves.len() ==> leaves[j] < tree.len(),
        built_from(records, tree, leaves),
    ensures
        forall|j: int| 0 <= j < leaves.len() ==> #[trigger] has_index(records, leaves[j]),
        root_of(records.map_values(|x: Record| x@)) == Some(tree[0]@),
{
    assert forall|j: int| 0 <= j < leaves.len() implies #[trigger] has_index(records, leaves[j]) by {
        assert(leaves.contains(leaves[j]));
    }
    let l = leaves[0];
    assert(leaves.contains(l));
    lemma_pow2_high();
    lemma_pow2_step(64);
    lemma2_to64();
    assert forall|m: u64| #[trigger] leaves.contains(m) && on_branch(0, m as nat) implies m + 1 < (0 + 1) * pow2(64 + 1) by {
        assert((0 + 1) * pow2(64 + 1) == pow2(65));
    }
    assert(on_branch(0, l as nat)) by {
        lemma_root_on_branch(l as nat);
    }
    lemma_value_on_branch(records, tree, leaves, 0, l, 64);
}

proof fn lemma_root_on_branch(l: nat)
    ensures
        on_branch(0, l),
    decreases l,
{
    if l > 0 {
        lemma_root_on_branch(parent(l));
    }
}

} // verus!

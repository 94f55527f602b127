use vstd::prelude::*;

use crate::tree::{id_values, Arena, Node, NodeId, NodeView};
use crate::vfs::{same_entity, FileNodeView, KubeFileNode};

verus! {

/// The views of a sequence of nodes.
pub open spec fn views(v: Seq<KubeFileNode>) -> Seq<FileNodeView> {
    v.map_values(|n: KubeFileNode| n@)
}

/// Whether some entry of `ds` stands for the same entity as `v`.
pub open spec fn matches_any(v: FileNodeView, ds: Seq<FileNodeView>) -> bool {
    exists|j: int| 0 <= j < ds.len() && same_entity(v, #[trigger] ds[j])
}

/// What the children of `dir` stand for, in order.
pub open spec fn child_views(a: Arena<KubeFileNode>, dir: u64) -> Seq<FileNodeView> {
    a.children_of(dir).map_values(|c: u64| a@[c].payload@)
}

/// The entries of `ds` that no entry of `cv` stands for, in order.
pub open spec fn unmatched(ds: Seq<FileNodeView>, cv: Seq<FileNodeView>) -> Seq<FileNodeView>
    decreases ds.len(),
{
    if ds.len() == 0 {
        seq![]
    } else {
        let rest = unmatched(ds.drop_last(), cv);
        if matches_any(ds.last(), cv) {
            rest
        } else {
            rest.push(ds.last())
        }
    }
}

/// The entries of `ds` that no child of `dir` stands for, in order.
pub open spec fn to_add(a: Arena<KubeFileNode>, dir: u64, ds: Seq<FileNodeView>) -> Seq<
    FileNodeView,
> {
    unmatched(ds, child_views(a, dir))
}

proof fn lemma_unmatched_mem(ds: Seq<FileNodeView>, cv: Seq<FileNodeView>, i: int) -> (j: int)
    requires
        0 <= i < unmatched(ds, cv).len(),
    ensures
        0 <= j < ds.len(),
        ds[j] == unmatched(ds, cv)[i],
        !matches_any(ds[j], cv),
    decreases ds.len(),
{
    let rest = unmatched(ds.drop_last(), cv);
    if i < rest.len() {
        let j = lemma_unmatched_mem(ds.drop_last(), cv, i);
        assert(ds.drop_last()[j] == ds[j]);
        j
    } else {
        ds.len() - 1
    }
}

/// Whether every child of `dir` stands for an entry of `ds`, and every entry
/// of `ds` for a child of `dir`.
pub open spec fn in_sync(a: Arena<KubeFileNode>, dir: u64, ds: Seq<FileNodeView>) -> bool {
    &&& forall|i: int|
        0 <= i < a.children_of(dir).len() ==> matches_any(#[trigger] child_views(a, dir)[i], ds)
    &&& forall|j: int| 0 <= j < ds.len() ==> matches_any(#[trigger] ds[j], child_views(a, dir))
}

/// Whether `v` is matched by an entry of `ds`.
fn any_match(v: &KubeFileNode, ds: &Vec<KubeFileNode>) -> (r: bool)
    ensures
        r == matches_any(v@, views(ds@)),
{
    let mut j: usize = 0;
    while j < ds.len()
        invariant
            j <= ds.len(),
            forall|k: int| 0 <= k < j ==> !same_entity(v@, #[trigger] views(ds@)[k]),
        decreases ds.len() - j,
    {
        if *v == ds[j] {
            assert(same_entity(v@, views(ds@)[j as int]));
            return true;
        }
        j = j + 1;
    }
    false
}

/// Whether `v` is matched by one of `nodes`.
fn any_node_match(v: &KubeFileNode, nodes: &Vec<&Node<KubeFileNode>>) -> (r: bool)
    ensures
        r == exists|k: int| 0 <= k < nodes.len() && same_entity(v@, #[trigger] nodes@[k]@.payload@),
{
    let mut j: usize = 0;
    while j < nodes.len()
        invariant
            j <= nodes.len(),
            forall|k: int| 0 <= k < j ==> !same_entity(v@, #[trigger] nodes@[k]@.payload@),
        decreases nodes.len() - j,
    {
        if *v == nodes[j].payload {
            assert(same_entity(v@, nodes@[j as int]@.payload@));
            return true;
        }
        j = j + 1;
    }
    false
}

proof fn lemma_same_entity_symmetric(a: FileNodeView, b: FileNodeView)
    ensures
        same_entity(a, b) == same_entity(b, a),
        same_entity(a, a),
{
}

/// Whether the elements of `sub` appear in `s` in the same relative order.
pub open spec fn keeps_order(sub: Seq<u64>, s: Seq<u64>) -> bool {
    forall|a: int, b: int, i: int, j: int|
        #![trigger sub[a], sub[b], s[i], s[j]]
        0 <= a < b < sub.len() && 0 <= i < s.len() && 0 <= j < s.len() && s[i] == sub[a] && s[j]
            == sub[b] ==> i < j
}

/// Whether `k` is a child of `d` that no entry of `ds` stands for.
pub open spec fn removed_child(
    before: Arena<KubeFileNode>,
    d: u64,
    ds: Seq<FileNodeView>,
    k: u64,
) -> bool {
    before.children_of(d).contains(k) && !matches_any(before@[k].payload@, ds)
}

/// Whether `x` lies in the subtree of a child of `d` that no entry of `ds`
/// stands for.
pub open spec fn in_removed_subtree(
    before: Arena<KubeFileNode>,
    d: u64,
    ds: Seq<FileNodeView>,
    x: u64,
) -> bool {
    exists|k: u64| removed_child(before, d, ds, k) && #[trigger] before.walk(k).contains(x)
}

/// What reconciling the children of `d` with `ds` leaves behind: the
/// children that an entry of `ds` stands for stay, unchanged and in front;
/// the others are gone with their whole subtrees; a new child for each
/// unmatched entry of `ds` follows, with fresh identifiers in order and no
/// children; the directory itself keeps all but its children, every other
/// node stays as it was, and no other node appears; afterwards children and
/// entries match.
pub open spec fn reconciled(
    before: Arena<KubeFileNode>,
    after: Arena<KubeFileNode>,
    d: u64,
    ds: Seq<FileNodeView>,
) -> bool {
    let adds = to_add(before, d, ds);
    let ch = after.children_of(d);
    let n = ch.len() - adds.len();
    let kept = ch.subrange(0, n);
    &&& after.next_id() == before.next_id() + adds.len()
    &&& 0 <= n
    &&& forall|x: u64|
        kept.contains(x) <==> (before.children_of(d).contains(x) && matches_any(
            before@[x].payload@,
            ds,
        ))
    &&& keeps_order(kept, before.children_of(d))
    &&& after@[d] == NodeView { children: ch, ..before@[d] }
    &&& forall|x: u64| #[trigger] kept.contains(x) ==> after@[x] == before@[x]
    &&& forall|x: u64|
        before.children_of(d).contains(x) && !matches_any(before@[x].payload@, ds)
            ==> !#[trigger] after.has(x)
    &&& forall|k: u64, x: u64|
        removed_child(before, d, ds, k) && #[trigger] before.walk(k).contains(x) ==> !after.has(
            x,
        )
    &&& forall|x: u64|
        #[trigger] before.has(x) && x != d && !in_removed_subtree(before, d, ds, x) ==> after.has(
            x,
        ) && after@[x] == before@[x]
    &&& forall|x: u64| #[trigger] after.has(x) ==> before.has(x) || before.next_id() <= x
    &&& forall|q: int|
        0 <= q < adds.len() ==> {
            &&& #[trigger] ch[n + q] == before.next_id() + q
            &&& after@[(before.next_id() + q) as u64].payload@ == adds[q]
            &&& after@[(before.next_id() + q) as u64].children == Seq::<u64>::empty()
            &&& after@[(before.next_id() + q) as u64].parent == Some(d)
        }
    &&& in_sync(after, d, ds)
    &&& in_sync(before, d, ds) ==> after@ == before@
}

proof fn lemma_unmatched_complete(ds: Seq<FileNodeView>, cv: Seq<FileNodeView>, j: int) -> (q: int)
    requires
        0 <= j < ds.len(),
        !matches_any(ds[j], cv),
    ensures
        0 <= q < unmatched(ds, cv).len(),
        unmatched(ds, cv)[q] == ds[j],
    decreases ds.len(),
{
    if j == ds.len() - 1 {
        unmatched(ds.drop_last(), cv).len() as int
    } else {
        assert(ds.drop_last()[j] == ds[j]);
        lemma_unmatched_complete(ds.drop_last(), cv, j)
    }
}

/// Whether node `x` of `a` has no children and has `d` as its parent.
spec fn new_leaf(a: Arena<KubeFileNode>, x: u64, d: u64) -> bool {
    a@[x].children == Seq::<u64>::empty() && a@[x].parent == Some(d)
}

/// Whether `x` lies in the subtree of one of `rv` in `a`.
spec fn gone(a: Arena<KubeFileNode>, rv: Seq<u64>, x: u64) -> bool {
    exists|m: int| 0 <= m < rv.len() && #[trigger] a.walk(rv[m]).contains(x)
}

/// Deletes each of the children `remove` of `dir` with its subtree.
fn delete_children(arena: &mut Arena<KubeFileNode>, dir: &NodeId, remove: &Vec<NodeId>)
    requires
        old(arena).wf(),
        old(arena).has(dir.value()),
        id_values(remove@).no_duplicates(),
        forall|x: u64|
            id_values(remove@).contains(x) ==> old(arena).children_of(dir.value()).contains(x),
    ensures
        final(arena).wf(),
        final(arena).has(dir.value()),
        final(arena).next_id() == old(arena).next_id(),
        final(arena)@[dir.value()] == (NodeView {
            children: final(arena).children_of(dir.value()),
            ..old(arena)@[dir.value()]
        }),
        forall|x: u64|
            final(arena).children_of(dir.value()).contains(x) <==> (old(arena).children_of(
                dir.value(),
            ).contains(x) && !id_values(remove@).contains(x)),
        keeps_order(final(arena).children_of(dir.value()), old(arena).children_of(dir.value())),
        forall|x: u64| gone(*old(arena), id_values(remove@), x) ==> !final(arena).has(x),
        forall|x: u64|
            #[trigger] old(arena).has(x) && x != dir.value() && !gone(
                *old(arena),
                id_values(remove@),
                x,
            ) ==> final(arena).has(x) && final(arena)@[x] == old(arena)@[x],
        forall|x: u64| #[trigger] final(arena).has(x) ==> old(arena).has(x),
        remove@.len() == 0 ==> *final(arena) == *old(arena),
{
    let ghost d = dir.value();
    let ghost a0 = *arena;
    let ghost old_ch = a0.children_of(d);
    let ghost rv = id_values(remove@);
    proof {
        assert(old_ch.no_duplicates());
        assert(keeps_order(old_ch, old_ch));
    }
    let mut k: usize = 0;
    while k < remove.len()
        invariant
            arena.wf(),
            arena.has(d),
            arena.next_id() == a0.next_id(),
            d == dir.value(),
            old_ch == a0.children_of(d),
            a0.wf(),
            a0.has(d),
            rv == id_values(remove@),
            rv.no_duplicates(),
            k <= remove.len(),
            forall|x: u64| rv.contains(x) ==> old_ch.contains(x),
            forall|x: u64|
                arena.children_of(d).contains(x) <==> (old_ch.contains(x)
                    && !rv.subrange(0, k as int).contains(x)),
            keeps_order(arena.children_of(d), old_ch),
            arena@[d] == (NodeView { children: arena.children_of(d), ..a0@[d] }),
            forall|x: u64| #[trigger] arena.has(x) ==> a0.has(x),
            forall|m: int, x: u64|
                0 <= m < k && #[trigger] a0.walk(rv[m]).contains(x) ==> !arena.has(x),
            forall|x: u64|
                #[trigger] a0.has(x) && x != d && !gone(a0, rv.subrange(0, k as int), x)
                    ==> arena.has(x) && arena@[x] == a0@[x],
            k == 0 ==> *arena == a0,
        decreases remove.len() - k,
    {
        let r = remove[k];
        let ghost a1 = *arena;
        let ghost rr = r.value();
        let ghost pre = rv.subrange(0, k as int);
        proof {
            assert(rv[k as int] == rr);
            assert(rv.contains(rr));
            assert(old_ch.contains(rr));
            assert(d < rr);
            assert(!pre.contains(rr)) by {
                if pre.contains(rr) {
                    let m = pre.index_of(rr);
                    assert(rv[m] == rr);
                }
            }
            assert(a1.children_of(d).contains(rr));
            assert forall|x: u64| #[trigger]
                a0.walk(rr).contains(x) implies a1.has(x) && a1@[x] == a0@[x] by {
                a0.lemma_walk_facts(rr, x);
                if gone(a0, pre, x) {
                    let m = choose|m: int| 0 <= m < pre.len() && #[trigger] a0.walk(pre[m]).contains(x);
                    assert(pre[m] == rv[m]);
                    assert(rv.contains(rv[m]));
                    assert(old_ch.contains(rv[m]));
                    assert(rv[m] != rr);
                    a0.lemma_walk_disjoint(rv[m], rr, x);
                }
            }
            a0.lemma_walk_agree(&a1, rr);
        }
        arena.delete_node(r);
        proof {
            let w = a1.walk(rr);
            assert(a1.has(rr));
            assert(a1@[rr].parent == Some(d));
            let cur = a1.children_of(d);
            assert(arena@[d].children == cur.remove_value(rr));
            assert(w[0] == rr);
            assert(w.to_set().contains(rr));
            assert(!w.contains(d)) by {
                if w.contains(d) {
                    a1.lemma_walk_facts(rr, d);
                }
            }
            Arena::<KubeFileNode>::lemma_remove_value(cur, rr);
            cur.index_of_first_ensures(rr);
            let p = cur.index_of_first(rr)->Some_0;
            cur.remove_ensures(p);
            let nxt = arena.children_of(d);
            assert(nxt == cur.remove(p));
            assert forall|a: int, b: int, i: int, j: int|
                #![trigger nxt[a], nxt[b], old_ch[i], old_ch[j]]
                0 <= a < b < nxt.len() && 0 <= i < old_ch.len() && 0 <= j < old_ch.len()
                    && old_ch[i] == nxt[a] && old_ch[j] == nxt[b] implies i < j by {
                let a2 = if a < p { a } else { a + 1 };
                let b2 = if b < p { b } else { b + 1 };
                assert(nxt[a] == cur[a2] && nxt[b] == cur[b2]);
            }
            assert(rv.subrange(0, k + 1) =~= pre.push(rr));
            assert(rv.subrange(0, k + 1)[k as int] == rr);
            assert(rv.subrange(0, k + 1).contains(rr));
            assert forall|x: u64| nxt.contains(x) <==> (old_ch.contains(x) && !rv.subrange(
                0,
                k + 1,
            ).contains(x)) by {
                if old_ch.contains(x) && !rv.subrange(0, k + 1).contains(x) {
                    assert(!pre.contains(x));
                    assert(x != rr);
                }
                if nxt.contains(x) {
                    assert(cur.remove_value(rr).contains(x));
                    assert(cur.contains(x));
                    assert(x != rr);
                    assert(!pre.contains(x));
                    if rv.subrange(0, k + 1).contains(x) {
                        let m = rv.subrange(0, k + 1).index_of(x);
                        if m < k {
                            assert(pre[m] == x);
                        }
                    }
                }
            }
            assert(arena@[d] == NodeView { children: nxt, ..a0@[d] });
            assert forall|x: u64| #[trigger] arena.has(x) implies a0.has(x) by {
                assert(a1.has(x));
            }
            assert forall|m: int, x: u64|
                0 <= m < k + 1 && #[trigger] a0.walk(rv[m]).contains(x) implies !arena.has(x) by {
                if m == k {
                    assert(w.contains(x));
                    assert(w.to_set().contains(x));
                    a0.lemma_walk_facts(rr, x);
                    assert(x != d);
                } else {
                    assert(!a1.has(x));
                    if x != d {
                        assert(!a1@.remove_keys(w.to_set()).contains_key(x));
                    }
                }
            }
            assert forall|x: u64|
                #[trigger] a0.has(x) && x != d && !gone(a0, rv.subrange(0, k + 1), x) implies arena.has(
                x,
            ) && arena@[x] == a0@[x] by {
                if gone(a0, pre, x) {
                    let m = choose|m: int| 0 <= m < pre.len() && #[trigger] a0.walk(pre[m]).contains(x);
                    assert(rv.subrange(0, k + 1)[m] == pre[m]);
                }
                if w.contains(x) {
                    assert(rv.subrange(0, k + 1)[k as int] == rr);
                }
                assert(a1.has(x));
            }
        }
        k = k + 1;
    }
    proof {
        assert(rv.subrange(0, rv.len() as int) =~= rv);
        assert forall|x: u64| gone(a0, rv, x) implies !arena.has(x) by {
            let m = choose|m: int| 0 <= m < rv.len() && #[trigger] a0.walk(rv[m]).contains(x);
        }
    }
}

/// Brings the children of `dir` in line with `desired`: each child that no
/// entry of `desired` stands for is deleted with its subtree, each entry that
/// no child stands for is added as a new child, in the order of `desired`,
/// and the children that remain keep their identifiers and contents.
/// Nothing changes where `dir` does not exist.
/// The entries of `ds` whose flag is set, in order.
spec fn selected(ds: Seq<FileNodeView>, flags: Seq<bool>) -> Seq<FileNodeView>
    decreases ds.len(),
{
    if ds.len() == 0 {
        seq![]
    } else {
        let rest = selected(ds.drop_last(), flags);
        if flags[ds.len() - 1] {
            rest.push(ds.last())
        } else {
            rest
        }
    }
}

proof fn lemma_selected_unmatched(ds: Seq<FileNodeView>, flags: Seq<bool>, cv: Seq<FileNodeView>)
    requires
        ds.len() <= flags.len(),
        forall|k: int| 0 <= k < ds.len() ==> #[trigger] flags[k] == !matches_any(ds[k], cv),
    ensures
        selected(ds, flags) == unmatched(ds, cv),
    decreases ds.len(),
{
    if ds.len() > 0 {
        let dl = ds.drop_last();
        assert forall|k: int| 0 <= k < dl.len() implies #[trigger] flags[k] == !matches_any(
            dl[k],
            cv,
        ) by {
            assert(dl[k] == ds[k]);
        }
        lemma_selected_unmatched(dl, flags, cv);
        assert(flags[ds.len() - 1] == !matches_any(ds[ds.len() - 1], cv));
    }
}

/// Adds, as new children of `dir` in order, the entries of `desired` whose
/// flag is set; returns how many it added.
#[verifier::rlimit(50)]
fn add_children(
    arena: &mut Arena<KubeFileNode>,
    dir: &NodeId,
    desired: &Vec<KubeFileNode>,
    add_flags: &Vec<bool>,
) -> (added: usize)
    requires
        old(arena).wf(),
        old(arena).has(dir.value()),
        old(arena).next_id() + desired.len() < u64::MAX,
        add_flags@.len() == desired@.len(),
    ensures
        ({
            let a2 = *old(arena);
            let d = dir.value();
            let next0 = a2.next_id();
            let adds = selected(views(desired@), add_flags@);
            &&& final(arena).wf()
            &&& final(arena).has(d)
            &&& added == adds.len()
            &&& final(arena).next_id() == next0 + added
            &&& final(arena).children_of(d) == a2.children_of(d) + Seq::new(
                added as nat,
                |q: int| (next0 + q) as u64,
            )
            &&& forall|x: u64| a2.has(x) ==> #[trigger] final(arena).has(x)
            &&& forall|x: u64| #[trigger] a2.has(x) && x != d ==> final(arena)@[x] == a2@[x]
            &&& forall|x: u64| #[trigger] final(arena).has(x) ==> a2.has(x) || next0 <= x
            &&& final(arena)@[d] == (NodeView { children: final(arena).children_of(d), ..a2@[d] })
            &&& forall|q: int|
                0 <= q < added ==> #[trigger] final(arena)@[(next0 + q) as u64].payload@ == adds[q]
            &&& forall|q: int| 0 <= q < added ==> #[trigger] final(arena).has((next0 + q) as u64)
            &&& forall|q: int|
                0 <= q < added ==> #[trigger] new_leaf(*final(arena), (next0 + q) as u64, d)
            &&& added == 0 ==> *final(arena) == a2
        }),
{
    let ghost a2 = *arena;
    let ghost d = dir.value();
    let ghost kept = a2.children_of(d);
    let next0 = arena.next_id_exec();
    let mut j: usize = 0;
    let mut added: usize = 0;
    let ghost ds = views(desired@);
    let ghost mut adds: Seq<FileNodeView> = seq![];
    while j < desired.len()
        invariant
            arena.wf(),
            arena.has(d),
            a2.wf(),
            a2.has(d),
            kept == a2.children_of(d),
            d == dir.value(),
            a2.next_id() == next0,
            next0 + desired.len() < u64::MAX,
            j <= desired.len(),
            add_flags@.len() == desired.len(),
            ds == views(desired@),
            adds == selected(ds.subrange(0, j as int), add_flags@),
            added == adds.len(),
            added <= j,
            arena.next_id() == next0 + added,
            arena.children_of(d) == kept + Seq::new(added as nat, |q: int| (next0 + q) as u64),
            forall|x: u64| #[trigger] kept.contains(x) ==> arena@[x] == a2@[x],
            forall|x: u64| a2.has(x) ==> #[trigger] arena.has(x),
            forall|x: u64| !a2.has(x) && x < next0 ==> !#[trigger] arena.has(x),
            forall|q: int|
                0 <= q < added ==> #[trigger] arena@[(next0 + q) as u64].payload@ == adds[q],
            forall|q: int| 0 <= q < added ==> #[trigger] arena.has((next0 + q) as u64),
            forall|q: int| 0 <= q < added ==> #[trigger] new_leaf(*arena, (next0 + q) as u64, d),
            forall|x: u64| #[trigger] arena.has(x) ==> a2.has(x) || next0 <= x,
            forall|x: u64| #[trigger] a2.has(x) && x != d ==> arena@[x] == a2@[x],
            arena@[d] == (NodeView { children: arena.children_of(d), ..a2@[d] }),
            added == 0 ==> *arena == a2,
        decreases desired.len() - j,
    {
        let ghost a3 = *arena;
        proof {
            assert(ds.subrange(0, j + 1) =~= ds.subrange(0, j as int).push(ds[j as int]));
            assert(ds.subrange(0, j + 1).drop_last() =~= ds.subrange(0, j as int));
        }
        if add_flags[j] {
            let item = desired[j].copy();
            let nid = arena.add(item, Some(*dir));
            proof {
                adds = adds.push(ds[j as int]);
                assert(arena.children_of(d) == a3.children_of(d).push(nid.value()));
                assert(a3.next_id() == next0 + added);
                assert forall|x: u64| #[trigger] arena.has(x) implies a2.has(x) || next0 <= x by {
                    if x != nid.value() {
                        assert(a3.has(x));
                    }
                }
                assert forall|x: u64| #[trigger] a2.has(x) && x != d implies arena@[x] == a2@[x] by {
                    assert(a3.has(x));
                    assert(x < next0);
                }
                assert(new_leaf(*arena, nid.value(), d));
                assert forall|q: int| 0 <= q < added + 1 implies #[trigger] new_leaf(
                    *arena,
                    (next0 + q) as u64,
                    d,
                ) by {
                    assert(d < next0);
                    if q < added {
                        assert(new_leaf(a3, (next0 + q) as u64, d));
                        assert(a3.has((next0 + q) as u64));
                        assert(arena@[(next0 + q) as u64] == a3@[(next0 + q) as u64]);
                    } else {
                        assert((next0 + q) as u64 == nid.value());
                    }
                }
                assert forall|x: u64| a2.has(x) implies #[trigger] arena.has(x) by {
                    assert(a3.has(x));
                }
                assert forall|x: u64| !a2.has(x) && x < next0 implies !#[trigger] arena.has(x) by {
                    assert(!a3.has(x));
                }
                assert forall|q: int|
                    0 <= q < added + 1 implies #[trigger] arena@[(next0 + q) as u64].payload@
                    == adds[q] by {
                    assert(d < next0);
                    if q < added {
                        assert(a3.has((next0 + q) as u64));
                        assert(arena@[(next0 + q) as u64] == a3@[(next0 + q) as u64]);
                    } else {
                        assert((next0 + q) as u64 == nid.value());
                        assert(arena@[nid.value()].payload@ == ds[j as int]);
                        assert(adds[q] == ds[j as int]);
                    }
                }
                assert forall|q: int| 0 <= q < added + 1 implies #[trigger] arena.has(
                    (next0 + q) as u64,
                ) by {
                    if q < added {
                        assert(a3.has((next0 + q) as u64));
                    }
                }
                assert(arena.children_of(d) =~= kept + Seq::new(
                    (added + 1) as nat,
                    |q: int| (next0 + q) as u64,
                ));
                assert forall|x: u64| #[trigger] kept.contains(x) implies arena@[x] == a2@[x] by {
                    assert(a2.has(x));
                    assert(a3.has(x));
                    assert(x != d) by {
                        assert(a2.children_of(d).contains(x));
                    }
                }
            }
            added = added + 1;
        }
        j = j + 1;
    }
    proof {
        assert(ds.subrange(0, ds.len() as int) =~= ds);
    }
    added
}

pub fn reconcile(arena: &mut Arena<KubeFileNode>, dir: &NodeId, desired: Vec<KubeFileNode>)
    requires
        old(arena).wf(),
        old(arena).next_id() + desired.len() < u64::MAX,
    ensures
        final(arena).wf(),
        !old(arena).has(dir.value()) ==> *final(arena) == *old(arena),
        old(arena).has(dir.value()) ==> final(arena).has(dir.value()) && reconciled(
            *old(arena),
            *final(arena),
            dir.value(),
            views(desired@),
        ),
{
    if !arena.contains(dir) {
        return;
    }
    let ghost d = dir.value();
    let ghost ds = views(desired@);
    let ghost a0 = *arena;
    let ghost old_ch = a0.children_of(d);
    let ghost cv = child_views(a0, d);
    let mut remove: Vec<NodeId> = Vec::new();
    let mut add_flags: Vec<bool> = Vec::new();
    {
        let children = match arena.get_children(dir) {
            Some(c) => c,
            None => Vec::new(),
        };
        let mut i: usize = 0;
        while i < children.len()
            invariant
                *arena == a0,
                a0.wf(),
                a0.has(d),
                d == dir.value(),
                ds == views(desired@),
                old_ch == a0.children_of(d),
                cv == child_views(a0, d),
                children@.len() == old_ch.len(),
                forall|k: int| 0 <= k < children@.len() ==> (#[trigger] children@[k])@ == a0@[old_ch[k]],
                i <= children.len(),
                id_values(remove@).no_duplicates(),
                forall|x: u64|
                    id_values(remove@).contains(x) <==> exists|k: int|
                        0 <= k < i && old_ch[k] == x && !matches_any(#[trigger] cv[k], ds),
            decreases children.len() - i,
        {
            let c = children[i];
            let found = any_match(&c.payload, &desired);
            proof {
                assert(old_ch.contains(old_ch[i as int]));
                assert(a0.has(old_ch[i as int]));
                assert(c.id.value() == old_ch[i as int]);
                assert(old_ch.no_duplicates());
                assert(cv[i as int] == c.payload@);
            }
            let ghost before = id_values(remove@);
            if !found {
                assert(!before.contains(old_ch[i as int])) by {
                    if before.contains(old_ch[i as int]) {
                        let k = choose|k: int|
                            0 <= k < i && old_ch[k] == old_ch[i as int] && !matches_any(cv[k], ds);
                    }
                }
                remove.push(c.id);
                assert(id_values(remove@) =~= before.push(old_ch[i as int]));
            }
            proof {
                let now = id_values(remove@);
                assert forall|x: u64|
                    now.contains(x) <==> exists|k: int|
                        0 <= k < i + 1 && old_ch[k] == x && !matches_any(#[trigger] cv[k], ds) by {
                    if now.contains(x) {
                        if !found && x == old_ch[i as int] {
                            assert(old_ch[i as int] == x && !matches_any(cv[i as int], ds));
                        } else {
                            if !found {
                                let m = now.index_of(x);
                                assert(before[m] == x);
                            }
                            assert(before.contains(x));
                            let k = choose|k: int|
                                0 <= k < i && old_ch[k] == x && !matches_any(#[trigger] cv[k], ds);
                            assert(old_ch[k] == x && !matches_any(cv[k], ds));
                        }
                    }
                    if exists|k: int|
                        0 <= k < i + 1 && old_ch[k] == x && !matches_any(#[trigger] cv[k], ds) {
                        let k = choose|k: int|
                            0 <= k < i + 1 && old_ch[k] == x && !matches_any(#[trigger] cv[k], ds);
                        if k == i {
                            assert(!found);
                            assert(now[before.len() as int] == x);
                        } else {
                            assert(old_ch[k] == x && !matches_any(cv[k], ds));
                            assert(before.contains(x));
                            let m = before.index_of(x);
                            assert(now[m] == x);
                        }
                    }
                }
            }
            i = i + 1;
        }
        let mut j: usize = 0;
        while j < desired.len()
            invariant
                *arena == a0,
                a0.wf(),
                a0.has(d),
                d == dir.value(),
                ds == views(desired@),
                old_ch == a0.children_of(d),
                cv == child_views(a0, d),
                children@.len() == old_ch.len(),
                forall|k: int| 0 <= k < children@.len() ==> (#[trigger] children@[k])@ == a0@[old_ch[k]],
                j <= desired.len(),
                add_flags@.len() == j,
                forall|k: int| 0 <= k < j ==> #[trigger] add_flags@[k] == !matches_any(ds[k], cv),
            decreases desired.len() - j,
        {
            let found = any_node_match(&desired[j], &children);
            proof {
                if found {
                    let k = choose|k: int|
                        0 <= k < children@.len() && same_entity(
                            desired@[j as int]@,
                            #[trigger] children@[k]@.payload@,
                        );
                    assert(cv[k] == children@[k]@.payload@);
                } else {
                    assert forall|k: int| 0 <= k < cv.len() implies !same_entity(
                        ds[j as int],
                        #[trigger] cv[k],
                    ) by {
                        assert(cv[k] == children@[k]@.payload@);
                    }
                }
            }
            add_flags.push(!found);
            j = j + 1;
        }
    }
    let ghost rv = id_values(remove@);
    proof {
        assert forall|x: u64|
            rv.contains(x) <==> (old_ch.contains(x) && !matches_any(a0@[x].payload@, ds)) by {
            if old_ch.contains(x) {
                let i = old_ch.index_of(x);
                assert(cv[i] == a0@[x].payload@);
            }
            if rv.contains(x) {
                let i = choose|i: int|
                    0 <= i < old_ch.len() && old_ch[i] == x && !matches_any(#[trigger] cv[i], ds);
                assert(cv[i] == a0@[x].payload@);
            }
        }
        assert(*arena == a0);
    }
    delete_children(arena, dir, &remove);
    let ghost a2 = *arena;
    let ghost kept = a2.children_of(d);
    proof {
        assert forall|x: u64| #[trigger] kept.contains(x) implies a2@[x] == a0@[x] by {
            assert(old_ch.contains(x) && !rv.contains(x));
            assert(x != d);
            if gone(a0, rv, x) {
                let m = choose|m: int| 0 <= m < rv.len() && #[trigger] a0.walk(rv[m]).contains(x);
                assert(rv.contains(rv[m]));
                a0.lemma_walk_facts(rv[m], x);
                assert(a0@[x].parent == Some(d));
            }
        }
    }
    let next0 = arena.next_id_exec();
    let added = add_children(arena, dir, &desired, &add_flags);
    let ghost adds = unmatched(ds, cv);
    proof {
        lemma_selected_unmatched(ds, add_flags@, cv);
    }
    proof {
        assert(ds.subrange(0, ds.len() as int) =~= ds);
        let ch = arena.children_of(d);
        assert(ch.subrange(0, kept.len() as int) =~= kept);
        assert forall|x: u64| #[trigger] kept.contains(x) implies arena@[x] == a0@[x] by {
            assert(a2.children_of(d).contains(x));
        }
        let n = kept.len() as int;
        let fv = child_views(*arena, d);
        assert forall|i: int| 0 <= i < ch.len() implies matches_any(#[trigger] fv[i], ds) by {
            if i < n {
                let x = ch[i];
                assert(kept[i] == x);
                assert(kept.contains(x));
                assert(a2.children_of(d).contains(x));
                assert(!rv.contains(x));
            } else {
                let q = i - n;
                assert(ch[i] == next0 + q);
                let jj = lemma_unmatched_mem(ds, cv, q);
                lemma_same_entity_symmetric(ds[jj], ds[jj]);
            }
        }
        assert forall|j: int| 0 <= j < ds.len() implies matches_any(#[trigger] ds[j], fv) by {
            if matches_any(ds[j], cv) {
                let i = choose|i: int| 0 <= i < cv.len() && same_entity(ds[j], #[trigger] cv[i]);
                let x = old_ch[i];
                assert(cv[i] == a0@[x].payload@);
                lemma_same_entity_symmetric(ds[j], cv[i]);
                assert(old_ch.contains(x));
                assert(matches_any(a0@[x].payload@, ds));
                assert(!rv.contains(x));
                assert(a2.children_of(d).contains(x));
                let m = kept.index_of(x);
                assert(ch[m] == x);
                assert(fv[m] == a0@[x].payload@);
            } else {
                let q = lemma_unmatched_complete(ds, cv, j);
                assert(ch[n + q] == next0 + q);
                lemma_same_entity_symmetric(ds[j], ds[j]);
                assert(fv[n + q] == ds[j]);
            }
        }
        assert(arena@[d] == (NodeView { children: ch, ..a0@[d] }));
        assert forall|q: int| 0 <= q < adds.len() implies #[trigger] ch[kept.len() + q]
            == a0.next_id() + q && arena@[(a0.next_id() + q) as u64].children == Seq::<
            u64,
        >::empty() && arena@[(a0.next_id() + q) as u64].parent == Some(d) by {
            assert(new_leaf(*arena, (next0 + q) as u64, d));
        }
        assert forall|kk: u64, x: u64|
            removed_child(a0, d, ds, kk) && #[trigger] a0.walk(kk).contains(x) implies !arena.has(
            x,
        ) by {
            assert(rv.contains(kk));
            let m = rv.index_of(kk);
            assert(a0.walk(rv[m]).contains(x));
            assert(gone(a0, rv, x));
            a0.lemma_walk_facts(kk, x);
        }
        assert forall|x: u64|
            #[trigger] a0.has(x) && x != d && !in_removed_subtree(a0, d, ds, x) implies arena.has(
            x,
        ) && arena@[x] == a0@[x] by {
            if gone(a0, rv, x) {
                let m = choose|m: int| 0 <= m < rv.len() && #[trigger] a0.walk(rv[m]).contains(x);
                assert(rv.contains(rv[m]));
                assert(removed_child(a0, d, ds, rv[m]));
            }
        }
        assert forall|x: u64| #[trigger] arena.has(x) implies a0.has(x) || a0.next_id() <= x by {
            if !(next0 <= x) {
                assert(a2.has(x));
            }
        }
        if in_sync(a0, d, ds) {
            assert(adds.len() == 0) by {
                if adds.len() > 0 {
                    let jj = lemma_unmatched_mem(ds, cv, 0);
                    assert(matches_any(ds[jj], cv));
                }
            }
            assert(rv.len() == 0) by {
                if rv.len() > 0 {
                    assert(rv.contains(rv[0]));
                    let x = rv[0];
                    let i = old_ch.index_of(x);
                    assert(cv[i] == a0@[x].payload@);
                    assert(matches_any(cv[i], ds));
                }
            }
        }
    }
}

/// Reconciling a directory a second time against the same entries changes
/// nothing: no child is deleted or added, and every identifier stays.
pub proof fn lemma_reconcile_twice_keeps_ids(
    a0: Arena<KubeFileNode>,
    a1: Arena<KubeFileNode>,
    a2: Arena<KubeFileNode>,
    d: u64,
    ds: Seq<FileNodeView>,
)
    requires
        reconciled(a0, a1, d, ds),
        reconciled(a1, a2, d, ds),
    ensures
        a2@ == a1@,
        a2.children_of(d) == a1.children_of(d),
        a2.next_id() == a1.next_id(),
{
    let cv = child_views(a1, d);
    if unmatched(ds, cv).len() > 0 {
        let j = lemma_unmatched_mem(ds, cv, 0);
        assert(matches_any(ds[j], cv));
    }
}

} // verus!

//! How a workflow is declared makes no difference: neither the order of its nodes nor a dependency
//! that is named twice shows in the status of a run.
use super::graph::Graph;
use super::key::KeyView;
use super::laws::follows;
use super::scheduler::Scheduler;
use super::status::{
    count_ready, lemma_count_ready, unready_texts, Marks, NodeState, WorkflowStatus,
};
use crate::dag::is_topological;
use crate::text::{
    in_order, lex_antisymmetric, lex_le, lex_reflexive, lex_total, lex_transitive, opt_text, texts,
};
use vstd::multiset::Multiset;
use vstd::prelude::*;

verus! {

/// Whether two graphs declare the same nodes, each with the same set of dependencies.
pub open spec fn same_nodes<R>(a: Graph<R>, b: Graph<R>) -> bool {
    &&& forall|key: KeyView| a.keys().contains(key) <==> #[trigger] b.keys().contains(key)
    &&& forall|i: int, j: int|
        0 <= i < a.keys().len() && 0 <= j < b.keys().len() && #[trigger] a.keys()[i]
            == #[trigger] b.keys()[j] ==> a.deps()[i].to_set() == b.deps()[j].to_set()
}

/// Whether two statuses say the same.
pub open spec fn same_status(a: WorkflowStatus, b: WorkflowStatus) -> bool {
    &&& a.observed_generation == b.observed_generation
    &&& opt_text(a.phase) == opt_text(b.phase)
    &&& a.ready == b.ready
    &&& a.total_nodes == b.total_nodes
    &&& a.completed_nodes == b.completed_nodes
    &&& a.pending_nodes == b.pending_nodes
    &&& texts(a.pending@) == texts(b.pending@)
    &&& opt_text(a.message) == opt_text(b.message)
}

/// Whether marks are what nodes report that would report `reports` under their keys.
pub open spec fn reported<R>(
    scheduler: Scheduler<R>,
    marks: Marks,
    reports: spec_fn(KeyView) -> NodeState,
) -> bool {
    follows(marks, |i: int| reports(scheduler.keys()[i]))
}

/// Nodes under the same key have the same dependencies, under their keys.
proof fn lemma_same_edge<R>(a: Graph<R>, b: Graph<R>, i: int, j: int, i2: int, j2: int)
    requires
        same_nodes(a, b),
        0 <= i < a.keys().len(),
        0 <= j < a.keys().len(),
        0 <= i2 < b.keys().len(),
        0 <= j2 < b.keys().len(),
        a.keys()[i] == b.keys()[i2],
        a.keys()[j] == b.keys()[j2],
    ensures
        a.edges().contains((j, i)) <==> b.edges().contains((j2, i2)),
{
    let key = a.keys()[j];
    assert(a.deps()[i].to_set().contains(key) <==> b.deps()[i2].to_set().contains(key));
}

/// Runs over both graphs left the same marks under the same keys, up to the `k`-th node of a
/// topological order.
proof fn lemma_same_marks<R>(
    a: Graph<R>,
    b: Graph<R>,
    sa: Scheduler<R>,
    sb: Scheduler<R>,
    ma: Marks,
    mb: Marks,
    reports: spec_fn(KeyView) -> NodeState,
    order: Seq<int>,
    k: int,
)
    requires
        same_nodes(a, b),
        sa.takes_on(a),
        sb.takes_on(b),
        sa.settled(ma),
        sb.settled(mb),
        reported(sa, ma, reports),
        reported(sb, mb, reports),
        is_topological(sa.size(), sa.edges(), order),
        0 <= k <= order.len(),
    ensures
        forall|m: int, i2: int|
            0 <= m < k && 0 <= i2 < sb.size() && sa.keys()[#[trigger] order[m]]
                == #[trigger] sb.keys()[i2] ==> ma[order[m]] == mb[i2],
    decreases k,
{
    if k > 0 {
        lemma_same_marks(a, b, sa, sb, ma, mb, reports, order, k - 1);
        let i = order[k - 1];
        assert(order.contains(i));
        assert forall|i2: int| 0 <= i2 < sb.size() && sa.keys()[i] == #[trigger] sb.keys()[i2] implies ma[i]
            == mb[i2] by {
            if sa.dependencies_ready(ma, i) {
                assert forall|j2: int| #[trigger] sb.edges().contains((j2, i2)) implies mb[j2]
                    == Some(NodeState::Ready) by {
                    assert(b.keys().contains(b.keys()[j2]));
                    assert(a.keys().contains(b.keys()[j2]));
                    let j = a.keys().index_of(b.keys()[j2]);
                    lemma_same_edge(a, b, i, j, i2, j2);
                    assert(sa.edges().contains((j, i)));
                    assert(order.contains(j));
                    let m = order.index_of(j);
                    assert(order[m] == j);
                    assert(sa.keys()[order[m]] == sb.keys()[j2]);
                }
                assert(sb.dependencies_ready(mb, i2));
            }
            if sb.dependencies_ready(mb, i2) {
                assert forall|j: int| #[trigger] sa.edges().contains((j, i)) implies ma[j] == Some(
                    NodeState::Ready,
                ) by {
                    assert(a.keys().contains(a.keys()[j]));
                    assert(b.keys().contains(a.keys()[j]));
                    let j2 = b.keys().index_of(a.keys()[j]);
                    lemma_same_edge(a, b, i, j, i2, j2);
                    assert(sb.edges().contains((j2, i2)));
                    assert(order.contains(j));
                    let m = order.index_of(j);
                    assert(order[m] == j);
                    assert(sa.keys()[order[m]] == sb.keys()[j2]);
                }
                assert(sa.dependencies_ready(ma, i));
            }
            assert(!sa.is_runnable(ma, i));
            assert(!sb.is_runnable(mb, i2));
            if ma[i] is Some {
                assert(sa.dependencies_ready(ma, i));
            }
            if mb[i2] is Some {
                assert(sb.dependencies_ready(mb, i2));
            }
        }
    }
}

/// Keys with their marks.
spec fn pairs(keys: Seq<KeyView>, marks: Marks) -> Seq<(KeyView, Option<NodeState>)> {
    Seq::new(marks.len(), |i: int| (keys[i], marks[i]))
}

/// What a node adds to the texts of the nodes that are not ready.
spec fn contribution(pair: (KeyView, Option<NodeState>)) -> Multiset<Seq<char>> {
    if pair.1 == Some(NodeState::Ready) {
        Multiset::empty()
    } else {
        Multiset::singleton(pair.0.text())
    }
}

/// The texts of the nodes that are not ready, in no order.
spec fn unready(pairs: Seq<(KeyView, Option<NodeState>)>) -> Multiset<Seq<char>>
    decreases pairs.len(),
{
    if pairs.len() == 0 {
        Multiset::empty()
    } else {
        unready(pairs.drop_last()).add(contribution(pairs.last()))
    }
}

proof fn lemma_unready(keys: Seq<KeyView>, marks: Marks)
    requires
        marks.len() <= keys.len(),
    ensures
        unready_texts(keys, marks).to_multiset() == unready(pairs(keys, marks)),
    decreases marks.len(),
{
    broadcast use vstd::seq_lib::group_to_multiset_ensures;

    if marks.len() == 0 {
        assert(unready_texts(keys, marks).to_multiset() =~= Multiset::<Seq<char>>::empty());
    } else {
        lemma_unready(keys, marks.drop_last());
        assert(pairs(keys, marks).drop_last() =~= pairs(keys, marks.drop_last()));
        assert(unready_texts(keys, marks).to_multiset() =~= unready(pairs(keys, marks)));
    }
}

proof fn lemma_unready_remove(pairs: Seq<(KeyView, Option<NodeState>)>, j: int)
    requires
        0 <= j < pairs.len(),
    ensures
        unready(pairs) == unready(pairs.remove(j)).add(contribution(pairs[j])),
    decreases pairs.len(),
{
    if j == pairs.len() - 1 {
        assert(pairs.remove(j) =~= pairs.drop_last());
    } else {
        lemma_unready_remove(pairs.drop_last(), j);
        assert(pairs.remove(j).drop_last() =~= pairs.drop_last().remove(j));
        assert(unready(pairs) =~= unready(pairs.remove(j)).add(contribution(pairs[j])));
    }
}

/// Lists of the same nodes leave the same nodes unready.
proof fn lemma_same_unready(
    a: Seq<(KeyView, Option<NodeState>)>,
    b: Seq<(KeyView, Option<NodeState>)>,
)
    requires
        a.no_duplicates(),
        b.no_duplicates(),
        forall|x: (KeyView, Option<NodeState>)| a.contains(x) <==> #[trigger] b.contains(x),
    ensures
        a.len() == b.len(),
        unready(a) == unready(b),
    decreases a.len(),
{
    if a.len() == 0 {
        if b.len() > 0 {
            assert(b.contains(b[0]));
        }
    } else {
        let x = a.last();
        assert(a[a.len() - 1] == x);
        assert(a.contains(x));
        assert(b.contains(x));
        let j = b.index_of(x);
        let rest = b.remove(j);
        assert forall|y: (KeyView, Option<NodeState>)|
            a.drop_last().contains(y) <==> #[trigger] rest.contains(y) by {
            if a.drop_last().contains(y) {
                let k = a.drop_last().index_of(y);
                assert(a[k] == y);
                assert(a.contains(y));
                assert(b.contains(y));
                let m = b.index_of(y);
                if m < j {
                    assert(rest[m] == y);
                } else {
                    assert(rest[m - 1] == y);
                }
            }
            if rest.contains(y) {
                let m = rest.index_of(y);
                assert(y == if m < j {
                    b[m]
                } else {
                    b[m + 1]
                });
                assert(b.contains(y));
                assert(a.contains(y));
                let k = a.index_of(y);
                assert(a.drop_last()[k] == y);
            }
        }
        lemma_same_unready(a.drop_last(), rest);
        lemma_unready_remove(b, j);
    }
}

/// Sorted lists of the same texts are the same list.
proof fn lemma_same_sorted(a: Seq<Seq<char>>, b: Seq<Seq<char>>)
    requires
        in_order(a),
        in_order(b),
        a.to_multiset() == b.to_multiset(),
    ensures
        a == b,
{
    let leq = |x: Seq<char>, y: Seq<char>| lex_le(x, y);
    assert(vstd::relations::total_ordering(leq)) by {
        assert forall|x: Seq<char>| #[trigger] leq(x, x) by {
            lex_reflexive(x);
        }
        assert forall|x: Seq<char>, y: Seq<char>| #[trigger]
            leq(x, y) && #[trigger] leq(y, x) implies x == y by {
            lex_antisymmetric(x, y);
        }
        assert forall|x: Seq<char>, y: Seq<char>, z: Seq<char>| #[trigger]
            leq(x, y) && #[trigger] leq(y, z) implies leq(x, z) by {
            lex_transitive(x, y, z);
        }
        assert forall|x: Seq<char>, y: Seq<char>| #[trigger] leq(x, y) || #[trigger] leq(y, x) by {
            lex_total(x, y);
        }
    }
    vstd::seq_lib::lemma_sorted_unique(a, b, leq);
}

/// Two graphs with the same nodes and the same sets of dependencies give the same status, where
/// the nodes report the same: neither the order in which nodes are declared, nor how often a
/// dependency is named, nor the order in which nodes are reconciled shows in it.
pub proof fn declaration_does_not_show<R>(
    a: Graph<R>,
    b: Graph<R>,
    sa: Scheduler<R>,
    sb: Scheduler<R>,
    ma: Marks,
    mb: Marks,
    reports: spec_fn(KeyView) -> NodeState,
    observed_generation: Option<i64>,
    status_a: WorkflowStatus,
    status_b: WorkflowStatus,
)
    requires
        same_nodes(a, b),
        sa.takes_on(a),
        sb.takes_on(b),
        sa.settled(ma),
        sb.settled(mb),
        reported(sa, ma, reports),
        reported(sb, mb, reports),
        status_a.reports(sa.keys(), ma, observed_generation),
        status_b.reports(sb.keys(), mb, observed_generation),
    ensures
        same_status(status_a, status_b),
        forall|i: int, j: int|
            0 <= i < sa.size() && 0 <= j < sb.size() && #[trigger] sa.keys()[i]
                == #[trigger] sb.keys()[j] ==> ma[i] == mb[j],
{
    let order = choose|order: Seq<int>| #[trigger]
        is_topological(sa.size(), sa.edges(), order);
    lemma_same_marks(a, b, sa, sb, ma, mb, reports, order, order.len() as int);
    assert forall|i: int, j: int|
        0 <= i < sa.size() && 0 <= j < sb.size() && #[trigger] sa.keys()[i]
            == #[trigger] sb.keys()[j] implies ma[i] == mb[j] by {
        assert(order.contains(i));
        let m = order.index_of(i);
        assert(sa.keys()[order[m]] == sb.keys()[j]);
    }
    let pa = pairs(sa.keys(), ma);
    let pb = pairs(sb.keys(), mb);
    assert forall|x: (KeyView, Option<NodeState>)| pa.contains(x) <==> #[trigger] pb.contains(x) by {
        if pa.contains(x) {
            let i = pa.index_of(x);
            assert(a.keys().contains(a.keys()[i]));
            assert(b.keys().contains(a.keys()[i]));
            let j = b.keys().index_of(a.keys()[i]);
            assert(sa.keys()[i] == sb.keys()[j]);
            assert(pb[j] == x);
        }
        if pb.contains(x) {
            let j = pb.index_of(x);
            assert(b.keys().contains(b.keys()[j]));
            assert(a.keys().contains(b.keys()[j]));
            let i = a.keys().index_of(b.keys()[j]);
            assert(sa.keys()[i] == sb.keys()[j]);
            assert(pa[i] == x);
        }
    }
    assert(pa.no_duplicates()) by {
        assert forall|i: int, j: int| 0 <= i < pa.len() && 0 <= j < pa.len() && i != j implies pa[i]
            != pa[j] by {
            assert(sa.keys()[i] != sa.keys()[j]);
        }
    }
    assert(pb.no_duplicates()) by {
        assert forall|i: int, j: int| 0 <= i < pb.len() && 0 <= j < pb.len() && i != j implies pb[i]
            != pb[j] by {
            assert(sb.keys()[i] != sb.keys()[j]);
        }
    }
    lemma_same_unready(pa, pb);
    lemma_unready(sa.keys(), ma);
    lemma_unready(sb.keys(), mb);
    lemma_count_ready(sa.keys(), ma);
    lemma_count_ready(sb.keys(), mb);
    lemma_same_sorted(texts(status_a.pending@), texts(status_b.pending@));
    assert(texts(status_a.pending@).len() == texts(status_b.pending@).len());
    assert(count_ready(ma) == count_ready(mb));
}

}

//! What a node and a whole workflow report.
use super::key::KeyView;
use crate::text::{decimal, in_order, lex_le, opt_text, texts};
use vstd::prelude::*;

verus! {

/// What one reconciliation of a node reports.
#[derive(Clone, Copy, Debug, PartialEq, Eq, Structural)]
pub enum NodeState {
    Ready,
    Pending,
}

/// What each node reported in a run: nothing as long as it was not reconciled.
pub type Marks = Seq<Option<NodeState>>;

/// The number of nodes that are ready.
pub open spec fn count_ready(marks: Marks) -> nat
    decreases marks.len(),
{
    if marks.len() == 0 {
        0
    } else if marks.last() == Some(NodeState::Ready) {
        count_ready(marks.drop_last()) + 1
    } else {
        count_ready(marks.drop_last())
    }
}

/// The texts of the keys of the nodes that are not ready, in the order of the nodes.
pub open spec fn unready_texts(keys: Seq<KeyView>, marks: Marks) -> Seq<Seq<char>>
    decreases marks.len(),
{
    if marks.len() == 0 {
        Seq::empty()
    } else if marks.last() == Some(NodeState::Ready) {
        unready_texts(keys, marks.drop_last())
    } else {
        unready_texts(keys, marks.drop_last()).push(keys[marks.len() - 1].text())
    }
}

/// The status of a workflow after a run.
#[derive(Debug, Default, PartialEq, Eq)]
pub struct WorkflowStatus {
    pub observed_generation: Option<i64>,
    pub phase: Option<String>,
    pub ready: Option<bool>,
    pub total_nodes: Option<i64>,
    pub completed_nodes: Option<i64>,
    pub pending_nodes: Option<i64>,
    pub pending: Vec<String>,
    pub message: Option<String>,
}

impl Clone for WorkflowStatus {
    fn clone(&self) -> (r: Self)
        ensures
            r.observed_generation == self.observed_generation,
            opt_text(r.phase) == opt_text(self.phase),
            r.ready == self.ready,
            r.total_nodes == self.total_nodes,
            r.completed_nodes == self.completed_nodes,
            r.pending_nodes == self.pending_nodes,
            texts(r.pending@) == texts(self.pending@),
            opt_text(r.message) == opt_text(self.message),
    {
        let pending = self.pending.clone();
        proof {
            assert(texts(pending@) =~= texts(self.pending@));
        }
        WorkflowStatus {
            observed_generation: self.observed_generation,
            phase: self.phase.clone(),
            ready: self.ready,
            total_nodes: self.total_nodes,
            completed_nodes: self.completed_nodes,
            pending_nodes: self.pending_nodes,
            pending,
            message: self.message.clone(),
        }
    }
}

impl WorkflowStatus {
    /// Whether this is the status of a run over nodes with the given keys that left the given
    /// marks.
    pub open spec fn reports(
        self,
        keys: Seq<KeyView>,
        marks: Marks,
        observed_generation: Option<i64>,
    ) -> bool {
        let total = marks.len();
        let done = count_ready(marks);
        &&& self.observed_generation == observed_generation
        &&& self.total_nodes == Some(total as i64)
        &&& self.completed_nodes == Some(done as i64)
        &&& self.pending_nodes == Some((total - done) as i64)
        &&& in_order(texts(self.pending@))
        &&& texts(self.pending@).to_multiset() == unready_texts(keys, marks).to_multiset()
        &&& self.pending@.len() == total - done
        &&& self.ready == Some(done == total)
        &&& opt_text(self.phase) == Some(
            if done == total {
                "Ready"@
            } else if done == 0 {
                "Pending"@
            } else {
                "Progressing"@
            },
        )
        &&& opt_text(self.message) == Some(
            if done == total {
                "all workflow nodes are ready"@
            } else if done == 0 {
                "waiting for workflow dependencies"@
            } else {
                decimal(done) + " of "@ + decimal(total) + " workflow nodes are ready"@
            },
        )
    }
}

/// No more nodes are ready than there are.
pub proof fn lemma_count_ready(keys: Seq<KeyView>, marks: Marks)
    ensures
        count_ready(marks) <= marks.len(),
        unready_texts(keys, marks).len() == marks.len() - count_ready(marks),
        count_ready(marks) == marks.len() <==> (forall|i: int|
            0 <= i < marks.len() ==> #[trigger] marks[i] == Some(NodeState::Ready)),
        count_ready(marks) == 0 <==> (forall|i: int|
            0 <= i < marks.len() ==> #[trigger] marks[i] != Some(NodeState::Ready)),
    decreases marks.len(),
{
    if marks.len() > 0 {
        let rest = marks.drop_last();
        lemma_count_ready(keys, rest);
        assert(forall|i: int| 0 <= i < rest.len() ==> rest[i] == #[trigger] marks[i]);
        assert(marks.last() == marks[marks.len() - 1]);
        if count_ready(rest) < rest.len() {
            let i = choose|i: int|
                0 <= i < rest.len() && #[trigger] rest[i] != Some(NodeState::Ready);
            assert(marks[i] != Some(NodeState::Ready));
        }
        if count_ready(rest) > 0 {
            let i = choose|i: int|
                0 <= i < rest.len() && #[trigger] rest[i] == Some(NodeState::Ready);
            assert(marks[i] == Some(NodeState::Ready));
        }
    }
}

/// The nodes that reported that they are ready.
pub open spec fn ready_nodes(marks: Marks) -> Set<int> {
    Set::new(|i: int| 0 <= i < marks.len() && marks[i] == Some(NodeState::Ready))
}

/// The nodes that are not ready and whose keys are written as `text`.
pub open spec fn unready_nodes(keys: Seq<KeyView>, marks: Marks, text: Seq<char>) -> Set<int> {
    Set::new(
        |i: int|
            0 <= i < marks.len() && marks[i] != Some(NodeState::Ready) && keys[i].text() == text,
    )
}

proof fn lemma_counts(keys: Seq<KeyView>, marks: Marks, text: Seq<char>)
    requires
        marks.len() <= keys.len(),
    ensures
        ready_nodes(marks).finite(),
        ready_nodes(marks).len() == count_ready(marks),
        unready_nodes(keys, marks, text).finite(),
        unready_nodes(keys, marks, text).len() == unready_texts(keys, marks).to_multiset().count(
            text,
        ),
    decreases marks.len(),
{
    broadcast use vstd::seq_lib::group_to_multiset_ensures;

    if marks.len() == 0 {
        assert(ready_nodes(marks) =~= Set::empty());
        assert(unready_nodes(keys, marks, text) =~= Set::empty());
    } else {
        let rest = marks.drop_last();
        let last = marks.len() - 1;
        lemma_counts(keys, rest, text);
        if marks.last() == Some(NodeState::Ready) {
            assert(ready_nodes(marks) =~= ready_nodes(rest).insert(last));
            assert(unready_nodes(keys, marks, text) =~= unready_nodes(keys, rest, text));
        } else {
            assert(ready_nodes(marks) =~= ready_nodes(rest));
            if keys[last].text() == text {
                assert(unready_nodes(keys, marks, text) =~= unready_nodes(
                    keys,
                    rest,
                    text,
                ).insert(last));
            } else {
                assert(unready_nodes(keys, marks, text) =~= unready_nodes(keys, rest, text));
            }
        }
    }
}

/// A status counts the nodes, and those of them that reported that they are ready; lists the keys
/// of the others, each as often as there are such nodes, in dictionary order; and says in its
/// phase and its message whether all, none or some are ready.
pub proof fn status_tells_what_the_nodes_reported(
    status: WorkflowStatus,
    keys: Seq<KeyView>,
    marks: Marks,
    observed_generation: Option<i64>,
)
    requires
        marks.len() == keys.len(),
        marks.len() <= i64::MAX,
        status.reports(keys, marks, observed_generation),
    ensures
        ({
            let total = marks.len();
            let ready = Set::new(
                |i: int| 0 <= i < marks.len() && marks[i] == Some(NodeState::Ready),
            );
            let done = ready.len();
            let listed = status.pending@.map_values(|s: String| s@);
            &&& ready.finite()
            &&& done <= total
            &&& status.observed_generation == observed_generation
            &&& status.total_nodes == Some(total as i64)
            &&& status.completed_nodes == Some(done as i64)
            &&& status.pending_nodes == Some((total - done) as i64)
            &&& status.pending@.len() == total - done
            &&& forall|a: int, b: int|
                0 <= a < b < status.pending@.len() ==> lex_le(
                    (#[trigger] status.pending@[a])@,
                    (#[trigger] status.pending@[b])@,
                )
            &&& forall|text: Seq<char>| #[trigger]
                listed.to_multiset().count(text) == Set::new(
                    |i: int|
                        0 <= i < marks.len() && marks[i] != Some(NodeState::Ready)
                            && keys[i].text() == text,
                ).len()
            &&& status.ready == Some(done == total)
            &&& status.phase matches Some(phase)
            &&& status.message matches Some(message)
            &&& done == total ==> phase@ == "Ready"@ && message@ == "all workflow nodes are ready"@
            &&& done == 0 && total > 0 ==> phase@ == "Pending"@ && message@
                == "waiting for workflow dependencies"@
            &&& 0 < done < total ==> phase@ == "Progressing"@ && message@ == decimal(done)
                + " of "@ + decimal(total) + " workflow nodes are ready"@
        }),
{
    lemma_count_ready(keys, marks);
    assert(texts(status.pending@) =~= status.pending@.map_values(|s: String| s@));
    assert(ready_nodes(marks) =~= Set::new(
        |i: int| 0 <= i < marks.len() && marks[i] == Some(NodeState::Ready),
    ));
    lemma_counts(keys, marks, Seq::empty());
    let listed = status.pending@.map_values(|s: String| s@);
    assert forall|text: Seq<char>| #[trigger] listed.to_multiset().count(text) == Set::new(
        |i: int|
            0 <= i < marks.len() && marks[i] != Some(NodeState::Ready) && keys[i].text() == text,
    ).len() by {
        lemma_counts(keys, marks, text);
        assert(unready_nodes(keys, marks, text) =~= Set::new(
            |i: int|
                0 <= i < marks.len() && marks[i] != Some(NodeState::Ready) && keys[i].text()
                    == text,
        ));
    }
    assert forall|a: int, b: int| 0 <= a < b < status.pending@.len() implies lex_le(
        (#[trigger] status.pending@[a])@,
        (#[trigger] status.pending@[b])@,
    ) by {
        assert(texts(status.pending@)[a] == status.pending@[a]@);
        assert(texts(status.pending@)[b] == status.pending@[b]@);
    }
}

}

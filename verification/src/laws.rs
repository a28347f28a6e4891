//! Whole-run laws of the validators: properties of feeding an entire event
//! sequence through a validator, proved from the per-event step functions
//! that the executable methods are specified against.

use vstd::prelude::*;

use crate::domain::EventView;
use crate::domain::FailureView;
use crate::domain::LineView;
use crate::ordering::CursorView;
use crate::ordering::cursor_matches;
use crate::ordering::find_cursor_idx;
use crate::ordering::ordering_step;
use crate::partitioning::AssignView;
use crate::partitioning::assign_matches;
use crate::partitioning::find_assign;
use crate::partitioning::partitioning_step;

verus! {

/// The partitioning validator run over a whole event sequence: the final
/// state and all outcomes in order.
pub open spec fn partitioning_run(st: Seq<AssignView>, lines: Seq<LineView>) -> (
    Seq<AssignView>,
    Seq<Option<FailureView>>,
)
    decreases lines.len(),
{
    if lines.len() == 0 {
        (st, Seq::empty())
    } else {
        let step = partitioning_step(st, lines[0]);
        let rest = partitioning_run(step.0, lines.skip(1));
        (rest.0, step.1 + rest.1)
    }
}

/// The (topic, key, partition) triple a log line asserts, when it is a read
/// of a keyed message.
pub open spec fn read_assignment(l: LineView) -> Option<(Seq<char>, Seq<char>, u64)> {
    match l.event {
        EventView::Read { consumer, message } => match message.data.key {
            Some(k) => Some((message.metadata.topic_name, k, message.metadata.topic_partition)),
            None => None,
        },
        _ => None,
    }
}

/// Whether every keyed read in `lines` pairs a (topic, key) with one single
/// partition.
pub open spec fn reads_consistent(lines: Seq<LineView>) -> bool {
    forall|i: int, j: int|
        0 <= i < lines.len() && 0 <= j < lines.len() ==> match (
            #[trigger] read_assignment(lines[i]),
            #[trigger] read_assignment(lines[j]),
        ) {
            (Some(a), Some(b)) => (a.0 == b.0 && a.1 == b.1) ==> a.2 == b.2,
            _ => true,
        }
}

/// Whether every recorded baseline agrees with every keyed read in `lines`.
pub open spec fn state_consistent(st: Seq<AssignView>, lines: Seq<LineView>) -> bool {
    forall|e: int, i: int|
        0 <= e < st.len() && 0 <= i < lines.len() ==> match #[trigger] read_assignment(lines[i]) {
            Some(a) => ((#[trigger] st[e]).topic == a.0 && st[e].key == a.1) ==> st[e].partition
                == a.2,
            None => true,
        }
}

/// A found assignment is one of the entries and matches the pair.
proof fn lemma_find_assign_present(st: Seq<AssignView>, t: Seq<char>, k: Seq<char>)
    ensures
        match find_assign(st, t, k) {
            Some(a) => exists|e: int| 0 <= e < st.len() && st[e] == a && assign_matches(a, t, k),
            None => true,
        },
    decreases st.len(),
{
    if st.len() > 0 && !assign_matches(st[0], t, k) {
        lemma_find_assign_present(st.skip(1), t, k);
        if find_assign(st.skip(1), t, k) is Some {
            let a = find_assign(st.skip(1), t, k).unwrap();
            let e = choose|e: int|
                0 <= e < st.skip(1).len() && st.skip(1)[e] == a && assign_matches(a, t, k);
            assert(st[e + 1] == a);
        }
    }
}

/// Runs from a state consistent with the reads emit no failure at all.
proof fn lemma_partitioning_stable_from(st: Seq<AssignView>, lines: Seq<LineView>)
    requires
        reads_consistent(lines),
        state_consistent(st, lines),
    ensures
        forall|k: int|
            0 <= k < partitioning_run(st, lines).1.len() ==> (#[trigger] partitioning_run(
                st,
                lines,
            ).1[k]) is None,
    decreases lines.len(),
{
    if lines.len() > 0 {
        let l0 = lines[0];
        let step = partitioning_step(st, l0);
        match read_assignment(l0) {
            Some(a) => {
                lemma_find_assign_present(st, a.0, a.1);
                match find_assign(st, a.0, a.1) {
                    Some(prior) => {
                        assert(prior.partition == a.2);
                        assert(step.0 == st);
                        assert(step.1 =~= seq![None::<FailureView>]);
                    },
                    None => {
                        assert(step.1 =~= seq![None::<FailureView>]);
                    },
                }
            },
            None => {
                assert(step.1 =~= seq![None::<FailureView>]);
            },
        }
        assert forall|i: int, j: int|
            0 <= i < lines.skip(1).len() && 0 <= j < lines.skip(1).len() implies match (
            #[trigger] read_assignment(lines.skip(1)[i]),
            #[trigger] read_assignment(lines.skip(1)[j]),
        ) {
            (Some(a), Some(b)) => (a.0 == b.0 && a.1 == b.1) ==> a.2 == b.2,
            _ => true,
        } by {
            assert(lines.skip(1)[i] == lines[i + 1]);
            assert(lines.skip(1)[j] == lines[j + 1]);
        }
        assert forall|e: int, i: int|
            0 <= e < step.0.len() && 0 <= i < lines.skip(1).len() implies match
        #[trigger] read_assignment(lines.skip(1)[i]) {
            Some(a) => ((#[trigger] step.0[e]).topic == a.0 && step.0[e].key == a.1)
                ==> step.0[e].partition == a.2,
            None => true,
        } by {
            assert(lines.skip(1)[i] == lines[i + 1]);
            if e < st.len() {
                assert(step.0[e] == st[e]);
            } else {
                // the entry pushed by the first line: agreement with every later
                // read follows from the consistency of the reads themselves
                assert(read_assignment(lines[0]) is Some);
            }
        }
        lemma_partitioning_stable_from(step.0, lines.skip(1));
        assert forall|k: int|
            0 <= k < partitioning_run(st, lines).1.len() implies (#[trigger] partitioning_run(
            st,
            lines,
        ).1[k]) is None by {
            if k == 0 {
                assert(partitioning_run(st, lines).1[0] == step.1[0]);
            } else {
                assert(partitioning_run(st, lines).1[k] == partitioning_run(
                    step.0,
                    lines.skip(1),
                ).1[k - 1]);
            }
        }
    }
}

/// Idempotence of stable assignment: over any event sequence in which a key
/// is always paired with the same partition within its topic, a partitioning
/// run from the empty state never reports `key-reassigned` — every outcome
/// is `Ok`.
pub proof fn lemma_stable_assignment(lines: Seq<LineView>)
    requires
        reads_consistent(lines),
    ensures
        forall|k: int|
            0 <= k < partitioning_run(Seq::empty(), lines).1.len() ==> (
            #[trigger] partitioning_run(Seq::empty(), lines).1[k]) is None,
{
    assert(state_consistent(Seq::empty(), lines));
    lemma_partitioning_stable_from(Seq::empty(), lines);
}

/// The ordering validator run over a whole event sequence.
pub open spec fn ordering_run(st: Seq<CursorView>, lines: Seq<LineView>) -> (
    Seq<CursorView>,
    Seq<Option<FailureView>>,
)
    decreases lines.len(),
{
    if lines.len() == 0 {
        (st, Seq::empty())
    } else {
        let step = ordering_step(st, lines[0]);
        let rest = ordering_run(step.0, lines.skip(1));
        (rest.0, step.1 + rest.1)
    }
}

/// Whether the line is a successful write by `pr` to partition `p` of topic
/// `t`.
pub open spec fn write_line(l: LineView, pr: Seq<char>, t: Seq<char>, p: u64) -> bool {
    match l.event {
        EventView::Write { producer, message } => producer == pr && message.metadata.topic_name
            == t && message.metadata.topic_partition == p,
        _ => false,
    }
}

/// The offset a write line carries.
pub open spec fn write_offset(l: LineView) -> u64 {
    match l.event {
        EventView::Write { producer, message } => message.metadata.topic_partition_offset,
        _ => 0,
    }
}

/// Runs from a single matching cursor: each write produces exactly one
/// outcome, a failure exactly when its offset is below the cursor it found,
/// which by the overwrite rule is always the immediately preceding offset.
proof fn lemma_ordering_run_tracks(
    st: Seq<CursorView>,
    lines: Seq<LineView>,
    pr: Seq<char>,
    t: Seq<char>,
    p: u64,
)
    requires
        st.len() == 1,
        cursor_matches(st[0], pr, t, p),
        forall|i: int| 0 <= i < lines.len() ==> write_line(#[trigger] lines[i], pr, t, p),
    ensures
        ordering_run(st, lines).1.len() == lines.len(),
        forall|i: int|
            0 <= i < lines.len() ==> ((#[trigger] ordering_run(st, lines).1[i]) is Some <==> (if i
                == 0 {
                st[0].offset > write_offset(lines[0])
            } else {
                write_offset(lines[i - 1]) > write_offset(lines[i])
            })),
        forall|i: int|
            0 <= i < lines.len() && (#[trigger] ordering_run(st, lines).1[i]) is Some
                ==> ordering_run(st, lines).1[i].unwrap().code == "non-monotonic"@,
    decreases lines.len(),
{
    if lines.len() > 0 {
        let l0 = lines[0];
        let step = ordering_step(st, l0);
        assert(write_line(l0, pr, t, p));
        assert(find_cursor_idx(st, pr, t, p) == Some(0int));
        assert(step.0.len() == 1);
        assert(cursor_matches(step.0[0], pr, t, p));
        assert(step.0[0].offset == write_offset(l0));
        assert(step.1.len() == 1);
        assert(step.1[0] is Some <==> st[0].offset > write_offset(l0));
        assert forall|i: int| 0 <= i < lines.skip(1).len() implies write_line(
            #[trigger] lines.skip(1)[i],
            pr,
            t,
            p,
        ) by {
            assert(lines.skip(1)[i] == lines[i + 1]);
        }
        lemma_ordering_run_tracks(step.0, lines.skip(1), pr, t, p);
        let run = ordering_run(st, lines);
        let rest = ordering_run(step.0, lines.skip(1));
        assert(run.1.len() == lines.len());
        assert forall|i: int| 0 <= i < lines.len() implies ((#[trigger] run.1[i]) is Some <==> (if i
            == 0 {
            st[0].offset > write_offset(lines[0])
        } else {
            write_offset(lines[i - 1]) > write_offset(lines[i])
        })) by {
            if i == 0 {
                assert(run.1[0] == step.1[0]);
            } else {
                assert(run.1[i] == rest.1[i - 1]);
                assert(lines.skip(1)[i - 1] == lines[i]);
                if i == 1 {
                    assert(rest.1[0] is Some <==> step.0[0].offset > write_offset(
                        lines.skip(1)[0],
                    ));
                } else {
                    assert(lines.skip(1)[i - 2] == lines[i - 1]);
                }
            }
        }
        assert forall|i: int| 0 <= i < lines.len() && (#[trigger] run.1[i]) is Some implies
            run.1[i].unwrap().code == "non-monotonic"@ by {
            if i == 0 {
                assert(run.1[0] == step.1[0]);
            } else {
                assert(run.1[i] == rest.1[i - 1]);
            }
        }
    }
}

/// Regression detection: over any sequence of writes by one producer to one
/// topic partition, an ordering run from the empty state emits exactly one
/// outcome per write, and a `non-monotonic` failure exactly at each position
/// whose offset is lower than its predecessor's — the cursor the comparison
/// uses, by the overwrite-on-regress rule. The first write never fails.
pub proof fn lemma_regression_detection(lines: Seq<LineView>, pr: Seq<char>, t: Seq<char>, p: u64)
    requires
        forall|i: int| 0 <= i < lines.len() ==> write_line(#[trigger] lines[i], pr, t, p),
    ensures
        ordering_run(Seq::empty(), lines).1.len() == lines.len(),
        forall|i: int|
            0 <= i < lines.len() ==> ((#[trigger] ordering_run(Seq::empty(), lines).1[i]) is Some
                <==> (i > 0 && write_offset(lines[i - 1]) > write_offset(lines[i]))),
        forall|i: int|
            0 <= i < lines.len() && (#[trigger] ordering_run(Seq::empty(), lines).1[i]) is Some
                ==> ordering_run(Seq::empty(), lines).1[i].unwrap().code == "non-monotonic"@,
{
    let st0 = Seq::<CursorView>::empty();
    if lines.len() > 0 {
        let l0 = lines[0];
        let step = ordering_step(st0, l0);
        assert(write_line(l0, pr, t, p));
        assert(find_cursor_idx(st0, pr, t, p) is None);
        assert(step.0.len() == 1);
        assert(cursor_matches(step.0[0], pr, t, p));
        assert(step.0[0].offset == write_offset(l0));
        assert(step.1 =~= seq![None::<FailureView>]);
        assert forall|i: int| 0 <= i < lines.skip(1).len() implies write_line(
            #[trigger] lines.skip(1)[i],
            pr,
            t,
            p,
        ) by {
            assert(lines.skip(1)[i] == lines[i + 1]);
        }
        lemma_ordering_run_tracks(step.0, lines.skip(1), pr, t, p);
        let run = ordering_run(st0, lines);
        let rest = ordering_run(step.0, lines.skip(1));
        assert forall|i: int| 0 <= i < lines.len() implies ((#[trigger] run.1[i]) is Some <==> (i
            > 0 && write_offset(lines[i - 1]) > write_offset(lines[i]))) by {
            if i == 0 {
                assert(run.1[0] == step.1[0]);
            } else {
                assert(run.1[i] == rest.1[i - 1]);
                assert(lines.skip(1)[i - 1] == lines[i]);
                if i == 1 {
                    assert(rest.1[0] is Some <==> step.0[0].offset > write_offset(
                        lines.skip(1)[0],
                    ));
                } else {
                    assert(lines.skip(1)[i - 2] == lines[i - 1]);
                }
            }
        }
        assert forall|i: int| 0 <= i < lines.len() && (#[trigger] run.1[i]) is Some implies
            run.1[i].unwrap().code == "non-monotonic"@ by {
            if i > 0 {
                assert(run.1[i] == rest.1[i - 1]);
            }
        }
    }
}

} // verus!

//! The library's stated laws: properties that tie several operations
//! together, proved once and for all.

use vstd::prelude::*;

use crate::pma::PmAreaLazy;
use crate::task::TaskTable;

verus! {

/// Writing a byte range and reading it back returns the bytes unchanged,
/// at any offset and length the area admits — page boundaries included.
///
/// `write`'s contract says the written range holds `data` afterwards;
/// `read`'s contract says the bytes handed out are the area's bytes at the
/// read range. Together: what was written is what is read.
pub proof fn lemma_write_read_round_trip(
    written: PmAreaLazy,
    offset: int,
    data: Seq<u8>,
    out: Seq<u8>,
)
    requires
        written.holds_bytes(offset, data),
        out.len() == data.len(),
        forall|k: int| 0 <= k < out.len() ==> #[trigger] out[k] == written.byte_at(offset + k),
    ensures
        out == data,
{
    assert(out =~= data);
}

/// The try-lock reaping protocol cannot deadlock: in any configuration of
/// exiting tasks that each hold their own lock and retry their youngest
/// remaining child, some exiting task's next child is lock-free, so that
/// task completes a step. Since the process relation is a tree and handles
/// grow upward, the exiting task with the greatest handle qualifies: its
/// children sit above every lock holder. Termination of every exit follows
/// by induction on the tree.
pub proof fn lemma_reaping_no_deadlock(table: TaskTable, actors: Seq<int>)
    requires
        table.wf(),
        actors.len() > 0,
        forall|k: int| 0 <= k < actors.len() ==> table.occupied(#[trigger] actors[k]),
        forall|g: int|
            table.occupied(g) ==> ((#[trigger] table.task_of(g)).locked <==> actors.contains(g)),
    ensures
        exists|k: int|
            0 <= k < actors.len() && (table.task_of(#[trigger] actors[k]).children@.len() == 0
                || !table.task_of(
                table.task_of(actors[k]).children@.last() as int,
            ).locked),
{
    let k = lemma_seq_max_index(actors);
    let a = actors[k];
    if table.task_of(a).children@.len() > 0 {
        let c = table.task_of(a).children@.last() as int;
        assert(a < c && table.occupied(c));
        if table.task_of(c).locked {
            assert(actors.contains(c));
            let w = choose|w: int| 0 <= w < actors.len() && actors[w] == c;
            assert(actors[w] <= actors[k]);
        }
    }
    assert(0 <= k < actors.len() && (table.task_of(actors[k]).children@.len() == 0
        || !table.task_of(table.task_of(actors[k]).children@.last() as int).locked));
}

/// A nonempty sequence of integers has an index holding its maximum.
proof fn lemma_seq_max_index(s: Seq<int>) -> (k: int)
    requires
        s.len() > 0,
    ensures
        0 <= k < s.len(),
        forall|j: int| 0 <= j < s.len() ==> s[j] <= s[k],
    decreases s.len(),
{
    if s.len() == 1 {
        0
    } else {
        let k0 = lemma_seq_max_index(s.drop_last());
        if s.last() >= s[k0] {
            assert forall|j: int| 0 <= j < s.len() implies #[trigger] s[j] <= s[s.len() - 1] by {
                if j < s.len() - 1 {
                    assert(s.drop_last()[j] == s[j]);
                }
            }
            s.len() - 1
        } else {
            assert forall|j: int| 0 <= j < s.len() implies #[trigger] s[j] <= s[k0] by {
                if j < s.len() - 1 {
                    assert(s.drop_last()[j] == s[j]);
                }
            }
            k0
        }
    }
}

} // verus!

//! The log line and what its operation stands for.

use vstd::prelude::*;

use crate::calendar::Stamp;
use crate::counting::{count, lemma_count_permuted, lemma_count_same};
use crate::double::Double;
use crate::order::{before, law_one_sorting, stable_order, stable_sorting, taken};
use crate::text::same_text;

verus! {

/// One access to a file.
///
/// `is_anomaly` is the label that the generator gave the line, and `scenario_tag` the scenario
/// that it was made for: 0 ordinary, 1 large access at night, 2 burst of downloads, 3 access
/// above clearance, 4 huge download, 5 burst of deletions, 6 weekend access, 7 slow creep,
/// 8 collusion. Both are for evaluation: no detector reads them.
#[derive(Debug)]
pub struct LogRecord {
    pub user_id: u32,
    pub timestamp: Stamp,
    pub operation: String,
    pub file_size_kb: Double,
    pub sensitivity: u8,
    pub is_anomaly: bool,
    pub scenario_tag: u8,
}

/// What a log line says.
#[verifier::ext_equal]
pub struct Entry {
    pub user_id: u32,
    pub timestamp: Stamp,
    pub operation: Seq<char>,
    pub file_size_kb: Double,
    pub sensitivity: u8,
    pub is_anomaly: bool,
    pub scenario_tag: u8,
}

impl LogRecord {
    /// What the line says.
    pub open spec fn entry(&self) -> Entry {
        Entry {
            user_id: self.user_id,
            timestamp: self.timestamp,
            operation: self.operation@,
            file_size_kb: self.file_size_kb,
            sensitivity: self.sensitivity,
            is_anomaly: self.is_anomaly,
            scenario_tag: self.scenario_tag,
        }
    }
}

/// What log lines say, line by line.
pub open spec fn entries(logs: Seq<LogRecord>) -> Seq<Entry> {
    Seq::new(logs.len(), |i: int| logs[i].entry())
}

impl Clone for LogRecord {
    fn clone(&self) -> (r: Self)
        ensures
            r == *self,
    {
        LogRecord {
            user_id: self.user_id,
            timestamp: self.timestamp,
            operation: self.operation.clone(),
            file_size_kb: self.file_size_kb,
            sensitivity: self.sensitivity,
            is_anomaly: self.is_anomaly,
            scenario_tag: self.scenario_tag,
        }
    }
}

/// The number by which an operation enters the features.
pub open spec fn operation_code(op: Seq<char>) -> int {
    if op == "view"@ {
        0
    } else if op == "download"@ {
        1
    } else if op == "edit"@ {
        2
    } else if op == "delete"@ {
        3
    } else {
        -1
    }
}

/// The number by which an operation enters the features; -1 for an unknown one.
pub fn encode_operation(op: &str) -> (r: i64)
    ensures
        r == operation_code(op@),
{
    if same_text(op, "view") {
        0
    } else if same_text(op, "download") {
        1
    } else if same_text(op, "edit") {
        2
    } else if same_text(op, "delete") {
        3
    } else {
        -1
    }
}

/// Log lines are sorted by time, then by user.
pub open spec fn time_keys(logs: Seq<LogRecord>) -> Seq<(i64, u32)> {
    Seq::new(logs.len(), |i: int| (logs[i].timestamp.epoch, logs[i].user_id))
}

/// Sorts log lines by time, lines of the same time by user. Lines that agree in both keep
/// their order.
pub fn sort_logs(logs: &Vec<LogRecord>) -> (r: Vec<LogRecord>)
    ensures
        exists|order: Seq<usize>|
            stable_sorting(time_keys(logs@), order) && r@ == taken(logs@, order),
{
    let mut keys: Vec<(i64, u32)> = Vec::new();
    for i in 0..logs.len()
        invariant
            keys@.len() == i,
            i <= logs@.len(),
            forall|j: int|
                0 <= j < i ==> keys@[j] == (logs@[j].timestamp.epoch, logs@[j].user_id),
    {
        keys.push((logs[i].timestamp.epoch, logs[i].user_id));
    }
    assert(keys@ =~= time_keys(logs@));
    let order = stable_order(&keys);
    let mut r: Vec<LogRecord> = Vec::new();
    for i in 0..order.len()
        invariant
            stable_sorting(time_keys(logs@), order@),
            r@.len() == i,
            forall|j: int| 0 <= j < i ==> r@[j] == logs@[order@[j] as int],
    {
        r.push(logs[order[i]].clone());
    }
    assert(r@ =~= taken(logs@, order@));
    r
}

/// Lines that say the same are sorted alike.
pub proof fn law_sorting_goes_by_entries(
    a: Seq<LogRecord>,
    b: Seq<LogRecord>,
    order_a: Seq<usize>,
    order_b: Seq<usize>,
)
    requires
        entries(a) == entries(b),
        stable_sorting(time_keys(a), order_a),
        stable_sorting(time_keys(b), order_b),
    ensures
        order_a == order_b,
        entries(taken(a, order_a)) == entries(taken(b, order_b)),
{
    assert(a.len() == entries(a).len() && b.len() == entries(b).len());
    assert forall|i: int| 0 <= i < a.len() implies #[trigger] a[i].entry() == b[i].entry() by {
        assert(entries(a)[i] == entries(b)[i]);
    }
    assert forall|i: int| 0 <= i < a.len() implies #[trigger] time_keys(a)[i] == time_keys(
        b,
    )[i] by {
        assert(a[i].entry() == b[i].entry());
    }
    assert(time_keys(a) =~= time_keys(b));
    law_one_sorting(time_keys(a), order_a, order_b);
    assert forall|i: int| 0 <= i < order_a.len() implies #[trigger] entries(
        taken(a, order_a),
    )[i] == entries(taken(b, order_b))[i] by {
        let v = order_a[i] as int;
        assert(a[v].entry() == b[v].entry());
    }
    assert(entries(taken(a, order_a)) =~= entries(taken(b, order_b)));
}

/// Log lines in order of time.
pub open spec fn by_time(logs: Seq<LogRecord>) -> bool {
    forall|i: int, j: int|
        0 <= i <= j < logs.len() ==> logs[i].timestamp.epoch <= logs[j].timestamp.epoch
}

/// Sorted lines are in order of time, and as many as before have any given property.
pub proof fn law_sorting_keeps_lines(
    logs: Seq<LogRecord>,
    order: Seq<usize>,
    p: spec_fn(LogRecord) -> bool,
)
    requires
        logs.len() <= usize::MAX,
        stable_sorting(time_keys(logs), order),
    ensures
        by_time(taken(logs, order)),
        count(logs.len(), |i: int| p(taken(logs, order)[i])) == count(
            logs.len(),
            |i: int| p(logs[i]),
        ),
{
    let keys = time_keys(logs);
    let sorted = taken(logs, order);
    assert forall|i: int, j: int| 0 <= i <= j < sorted.len() implies sorted[i].timestamp.epoch
        <= sorted[j].timestamp.epoch by {
        if i < j {
            assert(before(keys, order[i] as int, order[j] as int));
        }
    }
    assert forall|i: int, j: int| 0 <= i < j < order.len() implies order[i] != order[j] by {
        assert(before(keys, order[i] as int, order[j] as int));
    }
    let q = |v: int| p(logs[v]);
    lemma_count_permuted(logs.len(), order, q);
    lemma_count_same(logs.len(), |i: int| p(sorted[i]), |i: int| q(order[i] as int));
}

/// Sorted lines ascend in time, lines of one time in the number of the user, and lines of one time
/// and one user stand as they stood before.
pub proof fn law_sorted_lines(logs: Seq<LogRecord>, order: Seq<usize>, i: int, j: int)
    requires
        logs.len() <= usize::MAX,
        stable_sorting(time_keys(logs), order),
        0 <= i < j < logs.len(),
    ensures
        taken(logs, order).len() == logs.len(),
        ({
            let (a, b) = (taken(logs, order)[i], taken(logs, order)[j]);
            &&& a.timestamp.epoch <= b.timestamp.epoch
            &&& a.timestamp.epoch == b.timestamp.epoch ==> a.user_id <= b.user_id
            &&& a.timestamp.epoch == b.timestamp.epoch && a.user_id == b.user_id ==> order[i]
                < order[j]
            &&& a == logs[order[i] as int]
            &&& order[i] != order[j]
        }),
{
    assert(before(time_keys(logs), order[i] as int, order[j] as int));
}

/// The four operations have codes of their own, in the order view, download, edit, delete; every
/// other text has the code -1.
pub proof fn law_operation_codes(op: Seq<char>)
    ensures
        operation_code("view"@) == 0,
        operation_code("download"@) == 1,
        operation_code("edit"@) == 2,
        operation_code("delete"@) == 3,
        op != "view"@ && op != "download"@ && op != "edit"@ && op != "delete"@ ==> operation_code(op)
            == -1,
{
    reveal_strlit("view");
    reveal_strlit("download");
    reveal_strlit("edit");
    reveal_strlit("delete");
    assert("view"@.len() != "download"@.len());
    assert("view"@[0] != "edit"@[0]);
    assert("download"@.len() != "edit"@.len() && "download"@.len() != "delete"@.len());
    assert("delete"@.len() != "view"@.len() && "delete"@.len() != "edit"@.len());
}

} // verus!

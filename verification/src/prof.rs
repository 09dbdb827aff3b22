//! The bookkeeping of a stage profiler: time and calls per label, and a report
//! with the most expensive stage first. Clocks and printing are left to the
//! caller.

use vstd::prelude::*;

verus! {

/// The accumulated time of a stage.
#[derive(Debug)]
pub struct Row {
    pub label: String,
    pub total_ns: u128,
    pub calls: u64,
}

/// Accumulated times per label.
#[derive(Debug)]
pub struct StageTotals {
    rows: Vec<Row>,
}

/// The total time and the number of calls of each label.
pub open spec fn entries(rows: Seq<Row>) -> Map<Seq<char>, (nat, nat)>
    decreases rows.len(),
{
    if rows.len() == 0 {
        Map::empty()
    } else {
        entries(rows.drop_last()).insert(
            rows.last().label@,
            (rows.last().total_ns as nat, rows.last().calls as nat),
        )
    }
}

/// Whether no label occurs twice.
pub open spec fn labels_distinct(rows: Seq<Row>) -> bool {
    forall|i: int, j: int| 0 <= i < j < rows.len() ==> rows[i].label@ != rows[j].label@
}

proof fn lemma_absent(rows: Seq<Row>, label: Seq<char>)
    requires
        forall|i: int| 0 <= i < rows.len() ==> (#[trigger] rows[i]).label@ != label,
    ensures
        !entries(rows).dom().contains(label),
    decreases rows.len(),
{
    if rows.len() > 0 {
        assert forall|i: int| 0 <= i < rows.drop_last().len() implies (
        #[trigger] rows.drop_last()[i]).label@ != label by {
            assert(rows.drop_last()[i] == rows[i]);
        }
        lemma_absent(rows.drop_last(), label);
        assert(rows.last() == rows[rows.len() - 1]);
    }
}

proof fn lemma_replaced(rows: Seq<Row>, k: int, row: Row)
    requires
        labels_distinct(rows),
        0 <= k < rows.len(),
        row.label@ == rows[k].label@,
    ensures
        entries(rows).dom().contains(row.label@),
        entries(rows)[row.label@] == (rows[k].total_ns as nat, rows[k].calls as nat),
        entries(rows.update(k, row)) == entries(rows).insert(
            row.label@,
            (row.total_ns as nat, row.calls as nat),
        ),
        labels_distinct(rows.update(k, row)),
    decreases rows.len(),
{
    let next = rows.update(k, row);
    let before = rows.drop_last();
    assert(forall|i: int| 0 <= i < rows.len() ==> (#[trigger] next[i]).label@ == rows[i].label@);
    if k == rows.len() - 1 {
        assert(next.drop_last() =~= before);
        assert(entries(next) =~= entries(rows).insert(
            row.label@,
            (row.total_ns as nat, row.calls as nat),
        ));
    } else {
        assert(next.drop_last() =~= before.update(k, row));
        assert(before[k] == rows[k]);
        lemma_replaced(before, k, row);
        assert(rows.last().label@ != row.label@);
        assert(entries(next) =~= entries(rows).insert(
            row.label@,
            (row.total_ns as nat, row.calls as nat),
        ));
    }
}

/// Where a row of `rows.push(row) + report` lies in `rows + report` with the row
/// inserted at `at` of the report.
spec fn moved_to(n: int, at: int, i: int) -> int {
    if i < n {
        i
    } else if i == n {
        n + at
    } else if i - n - 1 < at {
        i - 1
    } else {
        i
    }
}

/// Where a row of the second arrangement lies in the first.
spec fn moved_from(n: int, at: int, j: int) -> int {
    if j < n {
        j
    } else if j - n < at {
        j + 1
    } else if j - n == at {
        n
    } else {
        j
    }
}

proof fn lemma_same_rows(x: Seq<Row>, y: Seq<Row>, n: int, at: int)
    requires
        labels_distinct(x),
        x.len() == y.len(),
        0 <= n < x.len(),
        0 <= at < x.len() - n,
        forall|j: int| 0 <= j < y.len() ==> (#[trigger] y[j]) == x[moved_from(n, at, j)],
    ensures
        labels_distinct(y),
        entries(y) == entries(x),
{
    assert forall|i: int, j: int| 0 <= i < j < y.len() implies y[i].label@ != y[j].label@ by {
        let a = moved_from(n, at, i);
        let b = moved_from(n, at, j);
        assert(y[i] == x[a] && y[j] == x[b]);
        assert(a != b);
        if a < b {
            assert(x[a].label@ != x[b].label@);
        } else {
            assert(x[b].label@ != x[a].label@);
        }
    }
    assert forall|l: Seq<char>| #[trigger] entries(x).dom().contains(l) implies entries(
        y,
    ).dom().contains(l) && entries(x)[l] == entries(y)[l] by {
        if forall|i: int| 0 <= i < x.len() ==> (#[trigger] x[i]).label@ != l {
            lemma_absent(x, l);
        }
        let i = choose|i: int| 0 <= i < x.len() && (#[trigger] x[i]).label@ == l;
        let j = moved_to(n, at, i);
        assert(moved_from(n, at, j) == i);
        assert(y[j] == x[i]);
        lemma_replaced(x, i, x[i]);
        lemma_replaced(y, j, y[j]);
    }
    assert forall|l: Seq<char>| #[trigger] entries(y).dom().contains(l) implies entries(
        x,
    ).dom().contains(l) by {
        if forall|j: int| 0 <= j < y.len() ==> (#[trigger] y[j]).label@ != l {
            lemma_absent(y, l);
        }
        let j = choose|j: int| 0 <= j < y.len() && (#[trigger] y[j]).label@ == l;
        lemma_replaced(x, moved_from(n, at, j), x[moved_from(n, at, j)]);
    }
    assert(entries(y).dom() =~= entries(x).dom());
    assert(entries(y) =~= entries(x));
}

proof fn lemma_moved(rows: Seq<Row>, report: Seq<Row>, row: Row, at: int)
    requires
        labels_distinct(rows.push(row) + report),
        0 <= at <= report.len(),
    ensures
        labels_distinct(rows + report.insert(at, row)),
        entries(rows + report.insert(at, row)) == entries(rows.push(row) + report),
{
    let x = rows.push(row) + report;
    let y = rows + report.insert(at, row);
    let n = rows.len() as int;
    assert forall|j: int| 0 <= j < y.len() implies (#[trigger] y[j]) == x[moved_from(
        n,
        at,
        j,
    )] by {}
    lemma_same_rows(x, y, n, at);
}

/// Whether rows fall from the largest total.
pub open spec fn descending(rows: Seq<Row>) -> bool {
    forall|i: int, j: int|
        0 <= i <= j < rows.len() ==> rows[i].total_ns >= rows[j].total_ns
}

impl View for StageTotals {
    type V = Map<Seq<char>, (nat, nat)>;

    closed spec fn view(&self) -> Map<Seq<char>, (nat, nat)> {
        entries(self.rows@)
    }
}

/// Whether the time and the calls of a label can still be counted.
pub open spec fn has_room(totals: Map<Seq<char>, (nat, nat)>, label: Seq<char>, ns: u128) -> bool {
    totals.dom().contains(label) ==> totals[label].0 + ns <= u128::MAX && totals[label].1
        < u64::MAX
}

impl StageTotals {
    #[verifier::type_invariant]
    spec fn well_formed(self) -> bool {
        labels_distinct(self.rows@)
    }

    /// No times yet.
    #[must_use]
    pub fn new() -> (totals: Self)
        ensures
            totals@ == Map::<Seq<char>, (nat, nat)>::empty(),
    {
        StageTotals { rows: Vec::new() }
    }

    /// Whether one more call of a stage can be counted.
    #[must_use]
    pub fn can_record(&self, label: &String, ns: u128) -> (room: bool)
        ensures
            room == has_room(self@, label@, ns),
    {
        proof {
            use_type_invariant(self);
        }
        let mut k: usize = 0;
        while k < self.rows.len() && self.rows[k].label != *label
            invariant
                k <= self.rows@.len(),
                forall|i: int| 0 <= i < k ==> (#[trigger] self.rows@[i]).label@ != label@,
            decreases self.rows@.len() - k,
        {
            k = k + 1;
        }
        if k < self.rows.len() {
            proof {
                lemma_replaced(self.rows@, k as int, self.rows@[k as int]);
            }
            ns <= u128::MAX - self.rows[k].total_ns && self.rows[k].calls < u64::MAX
        } else {
            proof {
                lemma_absent(self.rows@, label@);
            }
            true
        }
    }

    /// Adds one call of a stage.
    pub fn record(&mut self, label: String, ns: u128)
        requires
            has_room(old(self)@, label@, ns),
        ensures
            final(self)@ == old(self)@.insert(
                label@,
                if old(self)@.dom().contains(label@) {
                    (old(self)@[label@].0 + ns as nat, old(self)@[label@].1 + 1)
                } else {
                    (ns as nat, 1nat)
                },
            ),
    {
        proof {
            use_type_invariant(&*self);
        }
        let mut rows: Vec<Row> = Vec::new();
        core::mem::swap(&mut rows, &mut self.rows);
        let mut k: usize = 0;
        while k < rows.len() && rows[k].label != label
            invariant
                k <= rows@.len(),
                forall|i: int| 0 <= i < k ==> (#[trigger] rows@[i]).label@ != label@,
            decreases rows@.len() - k,
        {
            k = k + 1;
        }
        if k < rows.len() {
            let total_ns = rows[k].total_ns;
            let calls = rows[k].calls;
            let ghost row = Row {
                label: rows@[k as int].label,
                total_ns: rows@[k as int].total_ns,
                calls: rows@[k as int].calls,
            };
            proof {
                lemma_replaced(rows@, k as int, row);
            }
            let next = Row { label, total_ns: total_ns + ns, calls: calls + 1 };
            proof {
                lemma_replaced(rows@, k as int, next);
            }
            rows.set(k, next);
        } else {
            proof {
                lemma_absent(rows@, label@);
            }
            let ghost before = rows@;
            rows.push(Row { label, total_ns: ns, calls: 1 });
            assert(rows@.drop_last() =~= before);
        }
        self.rows = rows;
    }

    /// The rows of a report, the largest total first. Nothing is left
    /// afterwards.
    pub fn take_report(&mut self) -> (report: Vec<Row>)
        ensures
            descending(report@),
            labels_distinct(report@),
            entries(report@) == old(self)@,
            final(self)@ == Map::<Seq<char>, (nat, nat)>::empty(),
    {
        proof {
            use_type_invariant(&*self);
        }
        let mut rows: Vec<Row> = Vec::new();
        core::mem::swap(&mut rows, &mut self.rows);
        let ghost all = rows@;
        let mut report: Vec<Row> = Vec::new();
        loop
            invariant
                descending(report@),
                labels_distinct(rows@ + report@),
                entries(rows@ + report@) == entries(all),
            ensures
                rows@.len() == 0,
                descending(report@),
                labels_distinct(rows@ + report@),
                entries(rows@ + report@) == entries(all),
            decreases rows@.len(),
        {
            let ghost before = rows@;
            match rows.pop() {
                None => {
                    break;
                },
                Some(row) => {
                    let mut at: usize = 0;
                    while at < report.len() && report[at].total_ns >= row.total_ns
                        invariant
                            at <= report@.len(),
                            forall|i: int|
                                0 <= i < at ==> (#[trigger] report@[i]).total_ns >= row.total_ns,
                        decreases report@.len() - at,
                    {
                        at = at + 1;
                    }
                    proof {
                        assert(before =~= rows@.push(row));
                        lemma_moved(rows@, report@, row, at as int);
                    }
                    report.insert(at, row);
                },
            }
        }
        assert(rows@ + report@ =~= report@);
        self.rows = Vec::new();
        report
    }
}

} // verus!

//! Putting finished scanlines back into row order.
//!
//! Workers finish at different speeds, so scanlines arrive in any order. The
//! buffer keeps those that cannot be written yet, sorted, and releases a run
//! of them as soon as the row that is due next has arrived.

use crate::job::reversed_row_order;
use crate::job::RenderResult;
use std::cmp::Ordering;
use vstd::prelude::*;
use vstd::seq_lib::to_multiset_insert;

verus! {

/// The direction in which rows are written out.
#[derive(Clone, Copy, PartialEq, Eq, Structural, Debug)]
pub enum RowOrder {
    /// Highest row index first: the image from its top row down.
    Descending,
    /// Lowest row index first.
    Ascending,
}

/// Whether row `a` is written out strictly before row `b`.
pub open spec fn comes_before(order: RowOrder, a: int, b: int) -> bool {
    match order {
        RowOrder::Descending => a > b,
        RowOrder::Ascending => a < b,
    }
}

/// The row that is due `steps` rows after `row`.
pub open spec fn row_after(order: RowOrder, row: int, steps: int) -> int {
    match order {
        RowOrder::Descending => row - steps,
        RowOrder::Ascending => row + steps,
    }
}

/// The row index of a scanline.
pub open spec fn row_of<P>(line: RenderResult<P>) -> int {
    line.line_num as int
}

/// The first `count` rows that are due, starting with `first_row`.
pub open spec fn rows_due(order: RowOrder, first_row: int, count: nat) -> Seq<int> {
    Seq::new(count, |i: int| row_after(order, first_row, i))
}

/// The row indices of a sequence of scanlines.
pub open spec fn rows_of<P>(lines: Seq<RenderResult<P>>) -> Seq<int> {
    Seq::new(lines.len(), |i: int| lines[i].line_num as int)
}

/// How many rows after `first_row` the row `row` is due; negative if it is due
/// before it.
pub open spec fn row_offset(order: RowOrder, first_row: int, row: int) -> int {
    match order {
        RowOrder::Descending => first_row - row,
        RowOrder::Ascending => row - first_row,
    }
}

/// The scanlines in `arrivals` are the first `arrivals.len()` rows that are
/// due from `first_row` on, in any order whatever: their row indices are a
/// permutation of those rows.
pub open spec fn is_permutation_of_rows_due<P>(
    order: RowOrder,
    first_row: int,
    arrivals: Seq<RenderResult<P>>,
) -> bool {
    rows_of(arrivals).to_multiset() == rows_due(order, first_row, arrivals.len()).to_multiset()
}

/// No two scanlines in `arrivals` have the same row index, and each row index
/// is one of the first `arrivals.len()` rows that are due from `first_row` on.
spec fn each_row_once<P>(order: RowOrder, first_row: int, arrivals: Seq<RenderResult<P>>) -> bool {
    &&& forall|i: int, j: int|
        0 <= i < j < arrivals.len() ==> arrivals[i].line_num != arrivals[j].line_num
    &&& forall|i: int|
        0 <= i < arrivals.len() ==> {
            let offset = row_offset(order, first_row, (#[trigger] arrivals[i]).line_num as int);
            0 <= offset && offset < arrivals.len()
        }
}

/// Scanlines stand in the order in which they are to be written out; two with
/// the same row index may stand side by side.
pub open spec fn in_release_order<P>(order: RowOrder, lines: Seq<RenderResult<P>>) -> bool {
    forall|i: int, j: int|
        0 <= i < j < lines.len() ==> !comes_before(
            order,
            lines[j].line_num as int,
            lines[i].line_num as int,
        )
}

/// Where a scanline with row index `row` goes into `lines`: behind the last
/// scanline that is not written out after it, so behind any with the same row.
pub open spec fn insert_index<P>(order: RowOrder, lines: Seq<RenderResult<P>>, row: int) -> int
    decreases lines.len(),
{
    if lines.len() == 0 {
        0
    } else if comes_before(order, row, lines.last().line_num as int) {
        insert_index(order, lines.drop_last(), row)
    } else {
        lines.len() as int
    }
}

/// How many scanlines at the head of `lines` can be written out now: the
/// length of the longest run that starts with `next_row` and goes on row by row.
pub open spec fn ready_count<P>(order: RowOrder, lines: Seq<RenderResult<P>>, next_row: int) -> nat
    decreases lines.len(),
{
    if lines.len() > 0 && lines[0].line_num == next_row {
        1 + ready_count(order, lines.skip(1), row_after(order, next_row, 1))
    } else {
        0
    }
}

/// What a reassembly buffer is, as a value: the scanlines it holds back, the
/// row that is due next, and the direction.
pub struct Reassembly<P> {
    pub pending: Seq<RenderResult<P>>,
    pub next_row: int,
    pub order: RowOrder,
}

impl<P> Reassembly<P> {
    /// A buffer that holds nothing and waits for `first_row`.
    pub open spec fn start(first_row: int, order: RowOrder) -> Self {
        Reassembly { pending: Seq::empty(), next_row: first_row, order }
    }

    /// The held scanlines with `arrival` sorted in.
    pub open spec fn merged(self, arrival: RenderResult<P>) -> Seq<RenderResult<P>> {
        self.pending.insert(
            insert_index(self.order, self.pending, arrival.line_num as int),
            arrival,
        )
    }

    /// The scanlines that are written out when `arrival` comes in.
    pub open spec fn released(self, arrival: RenderResult<P>) -> Seq<RenderResult<P>> {
        let merged = self.merged(arrival);
        merged.take(ready_count(self.order, merged, self.next_row) as int)
    }

    /// The buffer after `arrival` has come in.
    pub open spec fn after(self, arrival: RenderResult<P>) -> Self {
        let merged = self.merged(arrival);
        let ready = ready_count(self.order, merged, self.next_row);
        Reassembly {
            pending: merged.skip(ready as int),
            next_row: row_after(self.order, self.next_row, ready as int),
            order: self.order,
        }
    }

    /// The buffer after all of `arrivals` have come in, first to last.
    pub open spec fn after_all(self, arrivals: Seq<RenderResult<P>>) -> Self
        decreases arrivals.len(),
    {
        if arrivals.len() == 0 {
            self
        } else {
            self.after_all(arrivals.drop_last()).after(arrivals.last())
        }
    }

    /// Everything written out while `arrivals` come in, first to last.
    pub open spec fn released_by(self, arrivals: Seq<RenderResult<P>>) -> Seq<RenderResult<P>>
        decreases arrivals.len(),
    {
        if arrivals.len() == 0 {
            Seq::empty()
        } else {
            self.released_by(arrivals.drop_last()) + self.after_all(
                arrivals.drop_last(),
            ).released(arrivals.last())
        }
    }
}

/// The buffer of scanlines that have arrived ahead of their turn.
pub struct ReassemblyBuffer<P> {
    pending: Vec<RenderResult<P>>,
    next_row: i64,
    order: RowOrder,
}

impl<P> View for ReassemblyBuffer<P> {
    type V = Reassembly<P>;

    closed spec fn view(&self) -> Reassembly<P> {
        Reassembly { pending: self.pending@, next_row: self.next_row as int, order: self.order }
    }
}

impl<P> ReassemblyBuffer<P> {
    #[verifier::type_invariant]
    spec fn sorted_and_bounded(self) -> bool {
        &&& in_release_order(self.order, self.pending@)
        &&& i32::MIN - 1 <= self.next_row <= i32::MAX + 1
    }

    /// An empty buffer that releases `first_row` first.
    pub fn new(first_row: i32, order: RowOrder) -> (buffer: Self)
        ensures
            buffer@ == Reassembly::<P>::start(first_row as int, order),
    {
        ReassemblyBuffer { pending: Vec::new(), next_row: first_row as i64, order }
    }

    /// Takes one finished scanline and hands back, in row order, every
    /// scanline that can be written out now: none while the row that is due
    /// is still missing, otherwise that row and the held rows that follow it
    /// without a gap.
    ///
    /// Only the head of the held scanlines is looked at. A scanline whose row
    /// was due earlier than the row that is due now is never written out; it
    /// stays at the head and holds back whatever arrives after it. Two
    /// scanlines with the same row index are held side by side, the later
    /// arrival behind the earlier.
    pub fn accept(&mut self, result: RenderResult<P>) -> (released: Vec<RenderResult<P>>)
        ensures
            released@ == old(self)@.released(result),
            final(self)@ == old(self)@.after(result),
            in_release_order(final(self)@.order, final(self)@.pending),
    {
        proof {
            use_type_invariant(&*self);
        }
        let ghost before = self@;
        let ghost row = result.line_num as int;
        let order = self.order;
        let mut pending: Vec<RenderResult<P>> = Vec::new();
        std::mem::swap(&mut self.pending, &mut pending);

        let mut at: usize = pending.len();
        assert(before.pending.take(at as int) =~= before.pending);
        while at > 0 && Self::row_comes_before(order, result.line_num, pending[at - 1].line_num)
            invariant
                at <= pending.len(),
                pending@ == before.pending,
                row == result.line_num as int,
                insert_index(order, before.pending, row) == insert_index(
                    order,
                    before.pending.take(at as int),
                    row,
                ),
            decreases at,
        {
            assert(before.pending.take(at as int).drop_last() =~= before.pending.take(at - 1));
            at -= 1;
        }
        proof {
            lemma_insert_keeps_order(order, before.pending, result);
        }
        pending.insert(at, result);
        let ghost merged = pending@;

        let mut released: Vec<RenderResult<P>> = Vec::new();
        let mut next_row: i64 = self.next_row;
        while pending.len() > 0 && pending[0].line_num as i64 == next_row
            invariant
                released@ + pending@ == merged,
                next_row == row_after(order, before.next_row, released@.len() as int),
                ready_count(order, merged, before.next_row) == released@.len() + ready_count(
                    order,
                    pending@,
                    next_row as int,
                ),
                in_release_order(order, pending@),
                i32::MIN - 1 <= next_row <= i32::MAX + 1,
            decreases pending.len(),
        {
            let ghost held = pending@;
            let ghost out = released@;
            let line = pending.remove(0);
            assert(pending@ =~= held.skip(1));
            released.push(line);
            assert(released@ + pending@ =~= out + held);
            next_row = match order {
                RowOrder::Descending => next_row - 1,
                RowOrder::Ascending => next_row + 1,
            };
        }
        assert(released@ =~= merged.take(released@.len() as int));
        assert(pending@ =~= merged.skip(released@.len() as int));
        std::mem::swap(&mut self.pending, &mut pending);
        self.next_row = next_row;
        released
    }

    /// The row that is due next.
    pub fn next_row(&self) -> (row: i64)
        ensures
            row == self@.next_row,
    {
        self.next_row
    }

    /// The direction in which rows are written out.
    pub fn order(&self) -> (order: RowOrder)
        ensures
            order == self@.order,
    {
        self.order
    }

    /// How many scanlines are held back.
    pub fn held(&self) -> (count: usize)
        ensures
            count == self@.pending.len(),
    {
        self.pending.len()
    }

    /// Whether row `a` is written out strictly before row `b`.
    fn row_comes_before(order: RowOrder, a: i32, b: i32) -> (before: bool)
        ensures
            before == comes_before(order, a as int, b as int),
    {
        match order {
            RowOrder::Descending => a > b,
            RowOrder::Ascending => a < b,
        }
    }
}

/// Sorting a scanline into an ordered sequence at its insert index leaves the
/// sequence ordered.
proof fn lemma_insert_keeps_order<P>(
    order: RowOrder,
    lines: Seq<RenderResult<P>>,
    arrival: RenderResult<P>,
)
    requires
        in_release_order(order, lines),
    ensures
        0 <= insert_index(order, lines, arrival.line_num as int) <= lines.len(),
        forall|i: int|
            0 <= i < insert_index(order, lines, arrival.line_num as int) ==> !comes_before(
                order,
                arrival.line_num as int,
                lines[i].line_num as int,
            ),
        forall|i: int|
            insert_index(order, lines, arrival.line_num as int) <= i < lines.len() ==> comes_before(
                order,
                arrival.line_num as int,
                lines[i].line_num as int,
            ),
        in_release_order(
            order,
            lines.insert(insert_index(order, lines, arrival.line_num as int), arrival),
        ),
    decreases lines.len(),
{
    let row = arrival.line_num as int;
    let at = insert_index(order, lines, row);
    if lines.len() > 0 {
        let last = lines.len() - 1;
        if comes_before(order, row, lines.last().line_num as int) {
            let front = lines.drop_last();
            assert forall|i: int, j: int| 0 <= i < j < front.len() implies !comes_before(
                order,
                front[j].line_num as int,
                front[i].line_num as int,
            ) by {
                assert(front[i] == lines[i] && front[j] == lines[j]);
            }
            lemma_insert_keeps_order(order, front, arrival);
            assert forall|i: int| 0 <= i < at implies !comes_before(
                order,
                row,
                lines[i].line_num as int,
            ) by {
                assert(front[i] == lines[i]);
            }
            assert forall|i: int| at <= i < lines.len() implies comes_before(
                order,
                row,
                lines[i].line_num as int,
            ) by {
                if i < last {
                    assert(front[i] == lines[i]);
                }
            }
        } else {
            assert forall|i: int| 0 <= i < at implies !comes_before(
                order,
                row,
                lines[i].line_num as int,
            ) by {
                if i < last {
                    assert(!comes_before(
                        order,
                        lines[last].line_num as int,
                        lines[i].line_num as int,
                    ));
                }
            }
        }
    }
    let merged = lines.insert(at, arrival);
    assert forall|i: int, j: int| 0 <= i < j < merged.len() implies !comes_before(
        order,
        merged[j].line_num as int,
        merged[i].line_num as int,
    ) by {
        if j < at {
            assert(merged[i] == lines[i] && merged[j] == lines[j]);
        } else if j == at {
            assert(merged[i] == lines[i]);
        } else if i < at {
            assert(merged[i] == lines[i] && merged[j] == lines[j - 1]);
        } else if i == at {
            assert(merged[j] == lines[j - 1]);
        } else {
            assert(merged[i] == lines[i - 1] && merged[j] == lines[j - 1]);
        }
    }
}

/// Descending order is the order of the scanlines themselves: a scanline is
/// written out before another exactly when it is the lesser of the two. In
/// ascending order it is the greater that is written out first.
pub proof fn lemma_row_order_is_scanline_order<P>(a: RenderResult<P>, b: RenderResult<P>)
    ensures
        comes_before(RowOrder::Descending, row_of(a), row_of(b)) <==> reversed_row_order(
            a.line_num,
            b.line_num,
        ) == Ordering::Less,
        comes_before(RowOrder::Ascending, row_of(a), row_of(b)) <==> reversed_row_order(
            a.line_num,
            b.line_num,
        ) == Ordering::Greater,
{
}

/// The head run that `ready_count` measures: it goes on row by row from
/// `next_row`, and the scanline behind it, if there is one, breaks the run.
proof fn lemma_ready_run<P>(order: RowOrder, lines: Seq<RenderResult<P>>, next_row: int)
    ensures
        ready_count(order, lines, next_row) <= lines.len(),
        forall|i: int|
            0 <= i < ready_count(order, lines, next_row) ==> lines[i].line_num == row_after(
                order,
                next_row,
                i,
            ),
        ready_count(order, lines, next_row) < lines.len() ==> lines[ready_count(
            order,
            lines,
            next_row,
        ) as int].line_num != row_after(order, next_row, ready_count(order, lines, next_row) as int),
    decreases lines.len(),
{
    if lines.len() > 0 && lines[0].line_num == next_row {
        let rest = lines.skip(1);
        let then = row_after(order, next_row, 1);
        lemma_ready_run(order, rest, then);
        let ready = ready_count(order, lines, next_row);
        assert forall|i: int| 0 <= i < ready implies lines[i].line_num == row_after(
            order,
            next_row,
            i,
        ) by {
            if i > 0 {
                assert(rest[i - 1] == lines[i]);
                assert(row_after(order, then, i - 1) == row_after(order, next_row, i));
            }
        }
        if ready < lines.len() {
            assert(rest[ready - 1] == lines[ready as int]);
            assert(row_after(order, then, ready - 1) == row_after(order, next_row, ready as int));
        }
    }
}

/// What one arrival does to a buffer whose held scanlines are in order.
/// Nothing is lost and nothing made up: the scanlines written out, followed
/// by those still held, are the scanlines held before together with the
/// arrival, in order. The scanlines written out are the row that was due and
/// the rows after it without a gap, and the run is as long as it can be: the
/// first scanline still held is not the row that is due next.
pub proof fn lemma_arrival_releases_the_due_run<P>(state: Reassembly<P>, arrival: RenderResult<P>)
    requires
        in_release_order(state.order, state.pending),
    ensures
        state.released(arrival) + state.after(arrival).pending == state.merged(arrival),
        state.merged(arrival).to_multiset() == state.pending.to_multiset().insert(arrival),
        in_release_order(state.order, state.merged(arrival)),
        in_release_order(state.order, state.after(arrival).pending),
        forall|i: int|
            0 <= i < state.released(arrival).len() ==> (#[trigger] state.released(
                arrival,
            )[i]).line_num == row_after(state.order, state.next_row, i),
        state.after(arrival).next_row == row_after(
            state.order,
            state.next_row,
            state.released(arrival).len() as int,
        ),
        state.after(arrival).pending.len() > 0 ==> state.after(arrival).pending[0].line_num
            != state.after(arrival).next_row,
{
    let merged = state.merged(arrival);
    let ready = ready_count(state.order, merged, state.next_row) as int;
    let at = insert_index(state.order, state.pending, arrival.line_num as int);
    lemma_insert_keeps_order(state.order, state.pending, arrival);
    lemma_ready_run(state.order, merged, state.next_row);
    to_multiset_insert(state.pending, at, arrival);
    assert(merged.take(ready) + merged.skip(ready) =~= merged);
    let rest = state.after(arrival).pending;
    assert forall|i: int, j: int| 0 <= i < j < rest.len() implies !comes_before(
        state.order,
        rest[j].line_num as int,
        rest[i].line_num as int,
    ) by {
        assert(rest[i] == merged[ready + i] && rest[j] == merged[ready + j]);
    }
    assert forall|i: int| 0 <= i < state.released(arrival).len() implies (
    #[trigger] state.released(arrival)[i]).line_num == row_after(
        state.order,
        state.next_row,
        i,
    ) by {
        assert(state.released(arrival)[i] == merged[i]);
    }
    if rest.len() > 0 {
        assert(rest[0] == merged[ready]);
    }
}

/// Waiting for the row that is due: while the scanline at the head of the
/// held ones is not that row, an arrival with another row is only held, and
/// nothing is written out. When the row that is due arrives, and every held
/// scanline is due after it, it is written out at once, ahead of any other.
pub proof fn lemma_only_the_due_row_releases<P>(state: Reassembly<P>, arrival: RenderResult<P>)
    requires
        in_release_order(state.order, state.pending),
        state.pending.len() > 0 ==> state.pending[0].line_num != state.next_row,
    ensures
        arrival.line_num != state.next_row ==> state.released(arrival).len() == 0 && state.after(
            arrival,
        ).next_row == state.next_row && state.after(arrival).pending == state.merged(arrival),
        arrival.line_num == state.next_row && (state.pending.len() > 0 ==> comes_before(
            state.order,
            state.next_row,
            state.pending[0].line_num as int,
        )) ==> state.released(arrival).len() > 0 && state.released(arrival)[0] == arrival,
{
    let merged = state.merged(arrival);
    let at = insert_index(state.order, state.pending, arrival.line_num as int);
    lemma_insert_keeps_order(state.order, state.pending, arrival);
    lemma_ready_run(state.order, merged, state.next_row);
    if at > 0 {
        assert(merged[0] == state.pending[0]);
        assert(!comes_before(
            state.order,
            arrival.line_num as int,
            state.pending[0].line_num as int,
        ));
    } else {
        assert(merged[0] == arrival);
    }
    if arrival.line_num != state.next_row {
        assert(merged.skip(0) =~= merged);
    }
}

/// No two of the scanlines have the same row index, and they stand in the
/// order in which they are to be written out.
spec fn strictly_ordered<P>(order: RowOrder, lines: Seq<RenderResult<P>>) -> bool {
    forall|i: int, j: int|
        0 <= i < j < lines.len() ==> comes_before(
            order,
            lines[i].line_num as int,
            lines[j].line_num as int,
        )
}

/// Every one of the scanlines is due after `row`.
spec fn all_after<P>(order: RowOrder, row: int, lines: Seq<RenderResult<P>>) -> bool {
    forall|i: int| 0 <= i < lines.len() ==> comes_before(order, row, lines[i].line_num as int)
}

/// None of the scanlines is due before `row`.
spec fn none_before<P>(order: RowOrder, row: int, lines: Seq<RenderResult<P>>) -> bool {
    forall|i: int| 0 <= i < lines.len() ==> !comes_before(order, lines[i].line_num as int, row)
}

/// Every one of the scanlines is one of `source`.
spec fn all_from<P>(source: Seq<RenderResult<P>>, lines: Seq<RenderResult<P>>) -> bool {
    forall|i: int| 0 <= i < lines.len() ==> source.contains(#[trigger] lines[i])
}

/// The scanlines at the head of `lines` have the rows from `first_row` on.
spec fn rows_run_from<P>(order: RowOrder, first_row: int, lines: Seq<RenderResult<P>>) -> bool {
    forall|i: int|
        0 <= i < lines.len() ==> (#[trigger] lines[i]).line_num == row_after(order, first_row, i)
}

/// What holds of a buffer that started empty at `first_row` and has taken in
/// `arrivals`, no row twice and none that was due before `first_row`.
spec fn on_track<P>(
    order: RowOrder,
    first_row: int,
    arrivals: Seq<RenderResult<P>>,
    state: Reassembly<P>,
    released: Seq<RenderResult<P>>,
) -> bool {
    &&& state.order == order
    &&& state.next_row == row_after(order, first_row, released.len() as int)
    &&& released.len() + state.pending.len() == arrivals.len()
    &&& rows_run_from(order, first_row, released)
    &&& all_from(arrivals, released)
    &&& all_from(arrivals, state.pending)
    &&& all_after(order, state.next_row, state.pending)
    &&& strictly_ordered(order, state.pending)
}

/// Sorting a new row that is not overdue into strictly ordered scanlines that
/// are all still to come leaves them strictly ordered, and none overdue.
proof fn lemma_strict_merge<P>(
    order: RowOrder,
    next_row: int,
    held: Seq<RenderResult<P>>,
    arrival: RenderResult<P>,
)
    requires
        strictly_ordered(order, held),
        all_after(order, next_row, held),
        forall|i: int| 0 <= i < held.len() ==> (#[trigger] held[i]).line_num != arrival.line_num,
        !comes_before(order, arrival.line_num as int, next_row),
    ensures
        strictly_ordered(
            order,
            held.insert(insert_index(order, held, arrival.line_num as int), arrival),
        ),
        none_before(
            order,
            next_row,
            held.insert(insert_index(order, held, arrival.line_num as int), arrival),
        ),
{
    let row = arrival.line_num as int;
    assert forall|i: int, j: int| 0 <= i < j < held.len() implies !comes_before(
        order,
        held[j].line_num as int,
        held[i].line_num as int,
    ) by {
        assert(comes_before(order, held[i].line_num as int, held[j].line_num as int));
    }
    lemma_insert_keeps_order(order, held, arrival);
    let at = insert_index(order, held, row);
    let merged = held.insert(at, arrival);
    assert forall|i: int, j: int| 0 <= i < j < merged.len() implies comes_before(
        order,
        merged[i].line_num as int,
        merged[j].line_num as int,
    ) by {
        if j < at {
            assert(merged[i] == held[i] && merged[j] == held[j]);
        } else if j == at {
            assert(merged[i] == held[i]);
            assert(!comes_before(order, row, held[i].line_num as int));
        } else if i < at {
            assert(merged[i] == held[i] && merged[j] == held[j - 1]);
        } else if i == at {
            assert(merged[j] == held[j - 1]);
        } else {
            assert(merged[i] == held[i - 1] && merged[j] == held[j - 1]);
        }
    }
    assert forall|i: int| 0 <= i < merged.len() implies !comes_before(
        order,
        merged[i].line_num as int,
        next_row,
    ) by {
        if i < at {
            assert(merged[i] == held[i]);
        } else if i > at {
            assert(merged[i] == held[i - 1]);
        }
    }
}

/// Behind the run that is written out, strictly ordered scanlines stay
/// strictly ordered, and all of them are due after the row that is due then.
proof fn lemma_strict_rest<P>(order: RowOrder, next_row: int, merged: Seq<RenderResult<P>>)
    requires
        strictly_ordered(order, merged),
        none_before(order, next_row, merged),
    ensures
        strictly_ordered(order, merged.skip(ready_count(order, merged, next_row) as int)),
        all_after(
            order,
            row_after(order, next_row, ready_count(order, merged, next_row) as int),
            merged.skip(ready_count(order, merged, next_row) as int),
        ),
{
    lemma_ready_run(order, merged, next_row);
    let ready = ready_count(order, merged, next_row) as int;
    let rest = merged.skip(ready);
    let then = row_after(order, next_row, ready);
    assert forall|i: int, j: int| 0 <= i < j < rest.len() implies comes_before(
        order,
        rest[i].line_num as int,
        rest[j].line_num as int,
    ) by {
        assert(rest[i] == merged[ready + i] && rest[j] == merged[ready + j]);
    }
    assert forall|i: int| 0 <= i < rest.len() implies comes_before(
        order,
        then,
        rest[i].line_num as int,
    ) by {
        assert(rest[i] == merged[ready + i]);
        assert(merged[ready].line_num != then);
        assert(!comes_before(order, merged[ready].line_num as int, next_row));
        if ready > 0 {
            assert(merged[ready - 1].line_num == row_after(order, next_row, ready - 1));
            assert(comes_before(
                order,
                merged[ready - 1].line_num as int,
                merged[ready].line_num as int,
            ));
        }
        if i > 0 {
            assert(comes_before(
                order,
                merged[ready].line_num as int,
                merged[ready + i].line_num as int,
            ));
        }
    }
}

/// A scanline whose row has not arrived before is neither held nor overdue.
proof fn lemma_arrival_is_new<P>(
    order: RowOrder,
    first_row: int,
    earlier: Seq<RenderResult<P>>,
    arrival: RenderResult<P>,
    state: Reassembly<P>,
    released: Seq<RenderResult<P>>,
)
    requires
        on_track(order, first_row, earlier, state, released),
        forall|i: int| 0 <= i < earlier.len() ==> (#[trigger] earlier[i]).line_num != arrival.line_num,
        0 <= row_offset(order, first_row, arrival.line_num as int),
    ensures
        forall|i: int|
            0 <= i < state.pending.len() ==> (#[trigger] state.pending[i]).line_num
                != arrival.line_num,
        !comes_before(order, arrival.line_num as int, state.next_row),
{
    assert forall|x: RenderResult<P>| earlier.contains(x) implies x.line_num
        != arrival.line_num by {
        let j = choose|j: int| 0 <= j < earlier.len() && earlier[j] == x;
        assert(earlier[j].line_num != arrival.line_num);
    }
    let offset = row_offset(order, first_row, arrival.line_num as int);
    if offset < released.len() {
        assert(earlier.contains(released[offset]));
        assert(released[offset].line_num == row_after(order, first_row, offset));
        assert(false);
    }
    assert forall|i: int| 0 <= i < state.pending.len() implies (#[trigger] state.pending[i]).line_num
        != arrival.line_num by {
        assert(earlier.contains(state.pending[i]));
    }
}

/// Scanlines that were among the earlier arrivals are among all arrivals.
proof fn lemma_all_from_longer<P>(arrivals: Seq<RenderResult<P>>, lines: Seq<RenderResult<P>>)
    requires
        arrivals.len() > 0,
        all_from(arrivals.drop_last(), lines),
    ensures
        all_from(arrivals, lines),
{
    let earlier = arrivals.drop_last();
    assert forall|i: int| 0 <= i < lines.len() implies arrivals.contains(#[trigger] lines[i]) by {
        assert(earlier.contains(lines[i]));
        let j = choose|j: int| 0 <= j < earlier.len() && earlier[j] == lines[i];
        assert(arrivals[j] == lines[i]);
    }
}

/// One more arrival, sorted in and split into the run that is written out
/// and the rest, is still made up of arrivals only, and the run carries on
/// the rows written out so far.
proof fn lemma_step_parts<P>(
    order: RowOrder,
    first_row: int,
    arrivals: Seq<RenderResult<P>>,
    state: Reassembly<P>,
    released: Seq<RenderResult<P>>,
)
    requires
        arrivals.len() > 0,
        on_track(order, first_row, arrivals.drop_last(), state, released),
    ensures
        all_from(arrivals, released + state.released(arrivals.last())),
        all_from(arrivals, state.after(arrivals.last()).pending),
        rows_run_from(order, first_row, released + state.released(arrivals.last())),
        state.released(arrivals.last()).len() + state.after(arrivals.last()).pending.len()
            == state.pending.len() + 1,
        state.after(arrivals.last()).next_row == row_after(
            order,
            first_row,
            (released + state.released(arrivals.last())).len() as int,
        ),
{
    let arrival = arrivals.last();
    let held = state.pending;
    let at = insert_index(order, held, arrival.line_num as int);
    assert forall|i: int, j: int| 0 <= i < j < held.len() implies !comes_before(
        order,
        held[j].line_num as int,
        held[i].line_num as int,
    ) by {
        assert(comes_before(order, held[i].line_num as int, held[j].line_num as int));
    }
    lemma_insert_keeps_order(order, held, arrival);
    let merged = state.merged(arrival);
    lemma_ready_run(order, merged, state.next_row);
    let ready = ready_count(order, merged, state.next_row) as int;
    lemma_all_from_longer(arrivals, released);
    lemma_all_from_longer(arrivals, held);
    assert forall|i: int| 0 <= i < merged.len() implies arrivals.contains(
        #[trigger] merged[i],
    ) by {
        if i < at {
            assert(merged[i] == held[i]);
        } else if i == at {
            assert(merged[i] == arrivals[arrivals.len() - 1]);
        } else {
            assert(merged[i] == held[i - 1]);
        }
    }
    let leaving = state.released(arrival);
    let rest = state.after(arrival).pending;
    let all_out = released + leaving;
    assert forall|i: int| 0 <= i < all_out.len() implies arrivals.contains(
        #[trigger] all_out[i],
    ) && all_out[i].line_num == row_after(order, first_row, i) by {
        if i < released.len() {
            assert(all_out[i] == released[i]);
        } else {
            assert(all_out[i] == merged[i - released.len()]);
            assert(row_after(order, state.next_row, i - released.len()) == row_after(
                order,
                first_row,
                i,
            ));
        }
    }
    assert forall|i: int| 0 <= i < rest.len() implies arrivals.contains(#[trigger] rest[i]) by {
        assert(rest[i] == merged[ready + i]);
    }
}

/// Rows that arrive once each, none of them due before `first_row`, keep the
/// buffer on track.
proof fn lemma_stays_on_track<P>(order: RowOrder, first_row: int, arrivals: Seq<RenderResult<P>>)
    requires
        forall|i: int, j: int|
            0 <= i < j < arrivals.len() ==> arrivals[i].line_num != arrivals[j].line_num,
        forall|i: int|
            0 <= i < arrivals.len() ==> 0 <= row_offset(
                order,
                first_row,
                (#[trigger] arrivals[i]).line_num as int,
            ),
    ensures
        on_track(
            order,
            first_row,
            arrivals,
            Reassembly::<P>::start(first_row, order).after_all(arrivals),
            Reassembly::<P>::start(first_row, order).released_by(arrivals),
        ),
    decreases arrivals.len(),
{
    let start = Reassembly::<P>::start(first_row, order);
    if arrivals.len() > 0 {
        let earlier = arrivals.drop_last();
        let arrival = arrivals.last();
        assert(arrival == arrivals[arrivals.len() - 1]);
        assert(earlier.len() == arrivals.len() - 1);
        assert forall|i: int| 0 <= i < earlier.len() implies (#[trigger] earlier[i]).line_num
            != arrival.line_num by {
            assert(earlier[i] == arrivals[i]);
        }
        assert forall|i: int, j: int| 0 <= i < j < earlier.len() implies earlier[i].line_num
            != earlier[j].line_num by {
            assert(earlier[i] == arrivals[i] && earlier[j] == arrivals[j]);
        }
        assert forall|i: int| 0 <= i < earlier.len() implies 0 <= row_offset(
            order,
            first_row,
            (#[trigger] earlier[i]).line_num as int,
        ) by {
            assert(earlier[i] == arrivals[i]);
        }
        lemma_stays_on_track(order, first_row, earlier);
        let state = start.after_all(earlier);
        let out = start.released_by(earlier);
        lemma_arrival_is_new(order, first_row, earlier, arrival, state, out);
        lemma_strict_merge(order, state.next_row, state.pending, arrival);
        lemma_strict_rest(order, state.next_row, state.merged(arrival));
        lemma_step_parts(order, first_row, arrivals, state, out);
        assert(start.after_all(arrivals) == state.after(arrival));
        assert(start.released_by(arrivals) == out + state.released(arrival));
    }
}

/// Strictly ordered scanlines that are all due after `next_row` spread out:
/// the one at index `i` is due at least `i + 1` rows after it.
proof fn lemma_held_rows_spread<P>(order: RowOrder, next_row: int, held: Seq<RenderResult<P>>, i: int)
    requires
        0 <= i < held.len(),
        forall|k: int|
            0 <= k < held.len() ==> comes_before(order, next_row, held[k].line_num as int),
        forall|k: int, l: int|
            0 <= k < l < held.len() ==> comes_before(
                order,
                held[k].line_num as int,
                held[l].line_num as int,
            ),
    ensures
        row_offset(order, next_row, held[i].line_num as int) >= i + 1,
    decreases i,
{
    if i > 0 {
        lemma_held_rows_spread(order, next_row, held, i - 1);
        assert(comes_before(order, held[i - 1].line_num as int, held[i].line_num as int));
    }
}

/// In a permutation of the rows that are due, every row occurs once and none
/// lies outside them.
proof fn lemma_permutation_has_each_row_once<P>(
    order: RowOrder,
    first_row: int,
    arrivals: Seq<RenderResult<P>>,
)
    requires
        is_permutation_of_rows_due(order, first_row, arrivals),
    ensures
        each_row_once(order, first_row, arrivals),
{
    let rows = rows_of(arrivals);
    let due = rows_due(order, first_row, arrivals.len());
    rows.to_multiset_ensures();
    due.to_multiset_ensures();
    assert(due.no_duplicates());
    due.lemma_multiset_has_no_duplicates();
    rows.lemma_multiset_has_no_duplicates_conv();
    assert forall|i: int, j: int| 0 <= i < j < arrivals.len() implies arrivals[i].line_num
        != arrivals[j].line_num by {
        assert(rows[i] != rows[j]);
    }
    assert forall|i: int| 0 <= i < arrivals.len() implies {
        let offset = row_offset(order, first_row, (#[trigger] arrivals[i]).line_num as int);
        0 <= offset && offset < arrivals.len()
    } by {
        assert(rows.contains(rows[i]));
        assert(rows.to_multiset().count(rows[i]) > 0);
        assert(due.to_multiset().count(rows[i]) > 0);
        assert(due.contains(rows[i]));
        let k = choose|k: int| 0 <= k < due.len() && due[k] == rows[i];
        assert(row_offset(order, first_row, rows[i]) == k);
    }
}

/// Reassembly: when the rows that are due from `first_row` on arrive in any
/// order whatever, they are written out in row order. Every scanline that is
/// written out is one that arrived, the one with that row index; nothing is
/// held back at the end, and the next row due is the one after the last.
pub proof fn lemma_any_arrival_order_is_written_in_row_order<P>(
    order: RowOrder,
    first_row: int,
    arrivals: Seq<RenderResult<P>>,
)
    requires
        is_permutation_of_rows_due(order, first_row, arrivals),
    ensures
        rows_of(Reassembly::<P>::start(first_row, order).released_by(arrivals)) == rows_due(
            order,
            first_row,
            arrivals.len(),
        ),
        forall|i: int|
            0 <= i < arrivals.len() ==> arrivals.contains(
                #[trigger] Reassembly::<P>::start(first_row, order).released_by(arrivals)[i],
            ),
        Reassembly::<P>::start(first_row, order).after_all(arrivals) == Reassembly::<P>::start(
            row_after(order, first_row, arrivals.len() as int),
            order,
        ),
{
    lemma_permutation_has_each_row_once(order, first_row, arrivals);
    let start = Reassembly::<P>::start(first_row, order);
    let state = start.after_all(arrivals);
    let out = start.released_by(arrivals);
    lemma_stays_on_track(order, first_row, arrivals);
    assert(on_track(order, first_row, arrivals, state, out));
    if state.pending.len() > 0 {
        let last = state.pending.len() - 1;
        lemma_held_rows_spread(order, state.next_row, state.pending, last);
        let straggler = state.pending[last];
        assert(arrivals.contains(straggler));
        let j = choose|j: int| 0 <= j < arrivals.len() && arrivals[j] == straggler;
        assert(row_offset(order, first_row, arrivals[j].line_num as int) < arrivals.len());
        assert(false);
    }
    assert(state.pending =~= Seq::empty());
    assert(rows_of(out) =~= rows_due(order, first_row, arrivals.len()));
}

} // verus!

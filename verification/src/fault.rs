//! A plan of failures for a source of chunks, to try out how a stream copes with them.
use std::collections::HashMap;

use vstd::prelude::*;

verus! {

/// The length of the pieces in which a source that follows a plan delivers a chunk.
pub const PIECE_LEN: usize = 8;

/// How often connecting to a chunk, and the transfer of a chunk, is still to fail. A count of
/// `u32::MAX` never runs out.
pub struct FailSchedule {
    connect_fails_left: HashMap<usize, u32>,
    stream_fails_left: HashMap<usize, (u32, usize)>,
}

/// What a [`FailSchedule`] is.
#[verifier::ext_equal]
pub struct FailScheduleView {
    /// For a chunk, how often connecting to it is still to fail.
    pub connect_fails_left: Map<usize, u32>,
    /// For a chunk, how often its transfer is still to fail, and after how many bytes.
    pub stream_fails_left: Map<usize, (u32, usize)>,
}

impl View for FailSchedule {
    type V = FailScheduleView;

    closed spec fn view(&self) -> FailScheduleView {
        FailScheduleView {
            connect_fails_left: self.connect_fails_left@,
            stream_fails_left: self.stream_fails_left@,
        }
    }
}

/// What is left of a count after one failure.
pub open spec fn one_less(times: u32) -> u32 {
    if times == u32::MAX || times == 0 {
        times
    } else {
        (times - 1) as u32
    }
}

impl FailScheduleView {
    /// The plan under which nothing fails.
    pub open spec fn nothing() -> Self {
        FailScheduleView { connect_fails_left: Map::empty(), stream_fails_left: Map::empty() }
    }

    /// The plan under which also the next `times` attempts to connect to the chunk `idx` fail.
    pub open spec fn with_connect_fail(self, idx: usize, times: u32) -> Self {
        FailScheduleView {
            connect_fails_left: self.connect_fails_left.insert(idx, times),
            ..self
        }
    }

    /// The plan under which also the next `times` transfers of the chunk `idx` fail after
    /// `fail_after` bytes.
    pub open spec fn with_stream_fail(self, idx: usize, times: u32, fail_after: usize) -> Self {
        FailScheduleView {
            stream_fails_left: self.stream_fails_left.insert(idx, (times, fail_after)),
            ..self
        }
    }

    /// Whether the next attempt to connect to the chunk `idx` fails.
    pub open spec fn connect_fails(self, idx: usize) -> bool {
        self.connect_fails_left.contains_key(idx) && self.connect_fails_left[idx] > 0
    }

    /// Whether the next transfer of the chunk `idx` fails.
    pub open spec fn stream_fails(self, idx: usize) -> bool {
        self.stream_fails_left.contains_key(idx) && self.stream_fails_left[idx].0 > 0
    }

    /// After how many of `len` bytes the next transfer of the chunk `idx` fails, if it does:
    /// never so late that less than a piece would be missing.
    pub open spec fn stream_failure(self, idx: usize, len: usize) -> Option<usize> {
        if self.stream_fails(idx) {
            let latest = if len < PIECE_LEN {
                0usize
            } else {
                (len - PIECE_LEN) as usize
            };
            let planned = self.stream_fails_left[idx].1;
            Some(
                if planned < latest {
                    planned
                } else {
                    latest
                },
            )
        } else {
            None
        }
    }

    /// The plan after an attempt to connect to the chunk `idx`.
    pub open spec fn after_connect(self, idx: usize) -> Self {
        if self.connect_fails(idx) {
            self.with_connect_fail(idx, one_less(self.connect_fails_left[idx]))
        } else {
            self
        }
    }

    /// The plan after a transfer of the chunk `idx`.
    pub open spec fn after_stream(self, idx: usize) -> Self {
        if self.stream_fails(idx) {
            let (times, fail_after) = self.stream_fails_left[idx];
            self.with_stream_fail(idx, one_less(times), fail_after)
        } else {
            self
        }
    }

    /// The plan after `n` attempts to connect to the chunk `idx`.
    pub open spec fn after_connects(self, idx: usize, n: nat) -> Self
        decreases n,
    {
        if n == 0 {
            self
        } else {
            self.after_connects(idx, (n - 1) as nat).after_connect(idx)
        }
    }

    /// The plan after `n` transfers of the chunk `idx`.
    pub open spec fn after_streams(self, idx: usize, n: nat) -> Self
        decreases n,
    {
        if n == 0 {
            self
        } else {
            self.after_streams(idx, (n - 1) as nat).after_stream(idx)
        }
    }
}

/// What is planned last for connecting to a chunk is what counts, and nothing else that was
/// planned changes with it.
pub proof fn law_connect_failures_are_replaced(
    plan: FailScheduleView,
    idx: usize,
    before: u32,
    times: u32,
)
    ensures
        plan.with_connect_fail(idx, before).with_connect_fail(idx, times)
            == plan.with_connect_fail(idx, times),
        plan.with_connect_fail(idx, times).connect_fails_left[idx] == times,
        forall|other: usize|
            other != idx ==> #[trigger] plan.with_connect_fail(idx, times).connect_fails(other)
                == plan.connect_fails(other),
        forall|other: usize, len: usize| #[trigger]
            plan.with_connect_fail(idx, times).stream_failure(other, len) == plan.stream_failure(
                other,
                len,
            ),
{
    assert(plan.with_connect_fail(idx, before).with_connect_fail(idx, times)
        =~= plan.with_connect_fail(idx, times));
}

/// What is planned last for the transfer of a chunk is what counts, and nothing else that was
/// planned changes with it.
pub proof fn law_stream_failures_are_replaced(
    plan: FailScheduleView,
    idx: usize,
    before: (u32, usize),
    times: u32,
    fail_after: usize,
)
    ensures
        plan.with_stream_fail(idx, before.0, before.1).with_stream_fail(idx, times, fail_after)
            == plan.with_stream_fail(idx, times, fail_after),
        plan.with_stream_fail(idx, times, fail_after).stream_fails_left[idx] == (
            times,
            fail_after,
        ),
        forall|other: usize, len: usize|
            other != idx ==> #[trigger] plan.with_stream_fail(
                idx,
                times,
                fail_after,
            ).stream_failure(other, len) == plan.stream_failure(other, len),
        forall|other: usize| #[trigger]
            plan.with_stream_fail(idx, times, fail_after).connect_fails(other)
                == plan.connect_fails(other),
{
    assert(plan.with_stream_fail(idx, before.0, before.1).with_stream_fail(
        idx,
        times,
        fail_after,
    ) =~= plan.with_stream_fail(idx, times, fail_after));
}

/// Failures to connect and failures of transfers can be planned in either order, and those of
/// different chunks too.
pub proof fn law_failures_can_be_planned_in_any_order(
    plan: FailScheduleView,
    idx: usize,
    times: u32,
    other: usize,
    other_times: u32,
    fail_after: usize,
)
    ensures
        plan.with_connect_fail(idx, times).with_stream_fail(other, other_times, fail_after)
            == plan.with_stream_fail(other, other_times, fail_after).with_connect_fail(idx, times),
        idx != other ==> plan.with_connect_fail(idx, times).with_connect_fail(other, other_times)
            == plan.with_connect_fail(other, other_times).with_connect_fail(idx, times),
{
    if idx != other {
        assert(plan.with_connect_fail(idx, times).with_connect_fail(other, other_times)
            =~= plan.with_connect_fail(other, other_times).with_connect_fail(idx, times));
    }
}

/// Connecting fails as often as planned and then succeeds, or always fails.
pub proof fn law_connecting_fails_as_often_as_planned(
    plan: FailScheduleView,
    idx: usize,
    times: u32,
    n: nat,
)
    ensures
        plan.with_connect_fail(idx, times).after_connects(idx, n).connect_fails(idx) <==> times
            == u32::MAX || n < times,
{
    lemma_connects_left(plan, idx, times, n);
}

proof fn lemma_connects_left(plan: FailScheduleView, idx: usize, times: u32, n: nat)
    ensures
        ({
            let after = plan.with_connect_fail(idx, times).after_connects(idx, n);
            &&& after.connect_fails_left.contains_key(idx)
            &&& after.connect_fails_left[idx] == if times == u32::MAX {
                times as int
            } else if n < times {
                times - n
            } else {
                0
            }
        }),
    decreases n,
{
    if n > 0 {
        lemma_connects_left(plan, idx, times, (n - 1) as nat);
    }
}

/// Transfers fail as often as planned and then succeed, or always fail.
pub proof fn law_transfers_fail_as_often_as_planned(
    plan: FailScheduleView,
    idx: usize,
    times: u32,
    fail_after: usize,
    n: nat,
)
    ensures
        plan.with_stream_fail(idx, times, fail_after).after_streams(idx, n).stream_fails(idx)
            <==> times == u32::MAX || n < times,
{
    lemma_streams_left(plan, idx, times, fail_after, n);
}

proof fn lemma_streams_left(
    plan: FailScheduleView,
    idx: usize,
    times: u32,
    fail_after: usize,
    n: nat,
)
    ensures
        ({
            let after = plan.with_stream_fail(idx, times, fail_after).after_streams(idx, n);
            &&& after.stream_fails_left.contains_key(idx)
            &&& after.stream_fails_left[idx].0 == if times == u32::MAX {
                times as int
            } else if n < times {
                times - n
            } else {
                0
            }
        }),
    decreases n,
{
    if n > 0 {
        lemma_streams_left(plan, idx, times, fail_after, (n - 1) as nat);
    }
}

/// A transfer that is to fail does so before all of its bytes have been delivered.
pub proof fn law_transfers_fail_before_they_end(plan: FailScheduleView, idx: usize, len: usize)
    requires
        len > 0,
    ensures
        plan.stream_failure(idx, len) matches Some(at) ==> at < len,
{
}

/// Nothing fails under the plan to begin with. What is planned for a chunk is what happens to it
/// next: connecting fails if it is to fail at least once more, and a transfer fails after the
/// planned number of bytes, but at least eight bytes before its end, or at once where it is
/// shorter.
pub proof fn law_what_is_planned_happens_next(
    plan: FailScheduleView,
    idx: usize,
    times: u32,
    fail_after: usize,
    len: usize,
)
    ensures
        !FailScheduleView::nothing().connect_fails(idx),
        FailScheduleView::nothing().stream_failure(idx, len) is None,
        !plan.connect_fails_left.contains_key(idx) ==> !plan.connect_fails(idx),
        !plan.stream_fails_left.contains_key(idx) ==> plan.stream_failure(idx, len) is None,
        plan.with_connect_fail(idx, times).connect_fails(idx) <==> times > 0,
        times == 0 ==> plan.with_stream_fail(idx, times, fail_after).stream_failure(idx, len)
            is None,
        times > 0 ==> (plan.with_stream_fail(idx, times, fail_after).stream_failure(idx, len)
            matches Some(at) && at == if len < 8 {
            0
        } else if fail_after + 8 <= len {
            fail_after as int
        } else {
            len - 8
        }),
{
}

/// A failure uses up one of those planned for the chunk, unless they are endless. It changes
/// nothing of when the next one comes, and nothing that is planned for other chunks or of the
/// other kind.
pub proof fn law_a_failure_uses_up_one_of_its_kind(plan: FailScheduleView, idx: usize)
    ensures
        !plan.connect_fails_left.contains_key(idx) ==> plan.after_connect(idx) == plan,
        !plan.stream_fails_left.contains_key(idx) ==> plan.after_stream(idx) == plan,
        plan.after_connect(idx).stream_fails_left == plan.stream_fails_left,
        plan.after_stream(idx).connect_fails_left == plan.connect_fails_left,
        forall|other: usize|
            other != idx ==> {
                &&& plan.after_connect(idx).connect_fails_left.contains_key(other)
                    == plan.connect_fails_left.contains_key(other)
                &&& #[trigger] plan.after_connect(idx).connect_fails_left[other]
                    == plan.connect_fails_left[other]
            },
        forall|other: usize|
            other != idx ==> {
                &&& plan.after_stream(idx).stream_fails_left.contains_key(other)
                    == plan.stream_fails_left.contains_key(other)
                &&& #[trigger] plan.after_stream(idx).stream_fails_left[other]
                    == plan.stream_fails_left[other]
            },
        plan.connect_fails_left.contains_key(idx) ==> plan.after_connect(
            idx,
        ).connect_fails_left[idx] == if plan.connect_fails_left[idx] == u32::MAX
            || plan.connect_fails_left[idx] == 0 {
            plan.connect_fails_left[idx] as int
        } else {
            plan.connect_fails_left[idx] - 1
        },
        plan.stream_fails_left.contains_key(idx) ==> {
            &&& plan.after_stream(idx).stream_fails_left[idx].1 == plan.stream_fails_left[idx].1
            &&& plan.after_stream(idx).stream_fails_left[idx].0 == if plan.stream_fails_left[idx].0
                == u32::MAX || plan.stream_fails_left[idx].0 == 0 {
                plan.stream_fails_left[idx].0 as int
            } else {
                plan.stream_fails_left[idx].0 - 1
            }
        },
{
}

impl Default for FailSchedule {
    /// A plan under which nothing fails.
    fn default() -> (schedule: Self)
        ensures
            schedule@ == FailScheduleView::nothing(),
    {
        FailSchedule { connect_fails_left: HashMap::new(), stream_fails_left: HashMap::new() }
    }
}

impl FailSchedule {
    /// A plan under which the next `times` attempts to connect to the chunk `idx` fail.
    pub fn connect_fail(idx: usize, times: u32) -> (schedule: Self)
        ensures
            schedule@ == FailScheduleView::nothing().with_connect_fail(idx, times),
    {
        Self::default().add_connect_fail(idx, times)
    }

    /// A plan under which the next `times` transfers of the chunk `idx` fail after `fail_after`
    /// bytes.
    pub fn stream_fail(idx: usize, times: u32, fail_after: usize) -> (schedule: Self)
        ensures
            schedule@ == FailScheduleView::nothing().with_stream_fail(idx, times, fail_after),
    {
        Self::default().add_stream_fail(idx, times, fail_after)
    }

    /// Adds that the next `times` attempts to connect to the chunk `idx` fail.
    pub fn add_connect_fail(self, idx: usize, times: u32) -> (schedule: Self)
        ensures
            schedule@ == self@.with_connect_fail(idx, times),
    {
        broadcast use vstd::std_specs::hash::group_hash_axioms;

        let mut schedule = self;
        let _ = schedule.connect_fails_left.insert(idx, times);
        schedule
    }

    /// Adds that the next `times` transfers of the chunk `idx` fail after `fail_after` bytes.
    pub fn add_stream_fail(self, idx: usize, times: u32, fail_after: usize) -> (schedule: Self)
        ensures
            schedule@ == self@.with_stream_fail(idx, times, fail_after),
    {
        broadcast use vstd::std_specs::hash::group_hash_axioms;

        let mut schedule = self;
        let _ = schedule.stream_fails_left.insert(idx, (times, fail_after));
        schedule
    }

    /// Says whether an attempt to connect to the chunk `idx` fails, and counts the failure.
    pub fn connect_should_fail(&mut self, idx: usize) -> (fails: bool)
        ensures
            fails == old(self)@.connect_fails(idx),
            final(self)@ == old(self)@.after_connect(idx),
    {
        broadcast use vstd::std_specs::hash::group_hash_axioms;

        let left: u32 = match self.connect_fails_left.get(&idx) {
            Some(times) => *times,
            None => 0,
        };
        if left == 0 {
            return false;
        }
        if left != u32::MAX {
            let _ = self.connect_fails_left.insert(idx, left - 1);
        }
        assert(self@.connect_fails_left =~= old(self)@.after_connect(idx).connect_fails_left);
        true
    }

    /// Says after how many of its `len` bytes a transfer of the chunk `idx` fails, if it does,
    /// and counts the failure.
    pub fn stream_fail_at(&mut self, idx: usize, len: usize) -> (fails_at: Option<usize>)
        ensures
            fails_at == old(self)@.stream_failure(idx, len),
            final(self)@ == old(self)@.after_stream(idx),
    {
        broadcast use vstd::std_specs::hash::group_hash_axioms;

        let (left, fail_after): (u32, usize) = match self.stream_fails_left.get(&idx) {
            Some(planned) => *planned,
            None => (0, 0),
        };
        if left == 0 {
            return None;
        }
        if left != u32::MAX {
            let _ = self.stream_fails_left.insert(idx, (left - 1, fail_after));
        }
        assert(self@.stream_fails_left =~= old(self)@.after_stream(idx).stream_fails_left);
        let latest: usize = if len < PIECE_LEN {
            0
        } else {
            len - PIECE_LEN
        };
        Some(
            if fail_after < latest {
                fail_after
            } else {
                latest
            },
        )
    }
}

} // verus!

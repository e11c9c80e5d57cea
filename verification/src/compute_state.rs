use crate::histogram::Histogram;
use vstd::prelude::*;

verus! {

// ---------------------------------------------------------------------------
// Splitting an iteration budget across sequences.
// ---------------------------------------------------------------------------

/// The sum of a sequence of iteration counts.
pub open spec fn total_iterations(shares: Seq<u64>) -> int
    decreases shares.len(),
{
    if shares.len() == 0 {
        0
    } else {
        total_iterations(shares.drop_last()) + shares.last()
    }
}

/// How `iterations_number` iterations are shared among `sequences_number`
/// sequences: each gets the quotient, and the first one also gets the
/// remainder.
pub open spec fn iteration_shares(iterations_number: u64, sequences_number: nat) -> Seq<u64>
    recommends
        sequences_number > 0,
{
    Seq::new(
        sequences_number,
        |i: int|
            if i == 0 {
                (iterations_number / (sequences_number as u64) + iterations_number % (
                sequences_number as u64)) as u64
            } else {
                iterations_number / (sequences_number as u64)
            },
    )
}

/// Shares `iterations_number` iterations among `sequences_number` sequences:
/// every sequence gets `iterations_number / sequences_number` and the first one
/// also gets the remainder, so that no iteration is lost or added.
pub fn split_iterations(iterations_number: u64, sequences_number: usize) -> (shares: Vec<u64>)
    requires
        sequences_number > 0,
    ensures
        shares@ == iteration_shares(iterations_number, sequences_number as nat),
        total_iterations(shares@) == iterations_number,
{
    let count = sequences_number as u64;
    let base = iterations_number / count;
    let rem = iterations_number % count;
    proof {
        vstd::arithmetic::div_mod::lemma_fundamental_div_mod(
            iterations_number as int,
            count as int,
        );
        assert(base * count + rem == iterations_number) by (nonlinear_arith)
            requires
                iterations_number == count * base + rem,
        ;
        assert(base <= base * count) by (nonlinear_arith)
            requires
                count >= 1,
        ;
    }
    let ghost expected = iteration_shares(iterations_number, sequences_number as nat);
    let mut shares: Vec<u64> = Vec::new();
    shares.push(base + rem);
    assert(shares@.drop_last() =~= Seq::<u64>::empty());
    assert(total_iterations(shares@.drop_last()) == 0);
    assert(total_iterations(shares@) == base * 1 + rem);
    let mut i: usize = 1;
    while i < sequences_number
        invariant
            count == sequences_number,
            base == iterations_number / count,
            rem == iterations_number % count,
            base * count + rem == iterations_number,
            expected == iteration_shares(iterations_number, sequences_number as nat),
            1 <= i <= sequences_number,
            shares@ =~= expected.take(i as int),
            total_iterations(shares@) == base * i + rem,
        decreases sequences_number - i,
    {
        let ghost prev = shares@;
        shares.push(base);
        assert(shares@.drop_last() =~= prev);
        assert(base * i + base == base * (i + 1)) by (nonlinear_arith);
        i = i + 1;
    }
    assert(expected.take(sequences_number as int) =~= expected);
    shares
}

// ---------------------------------------------------------------------------
// The compute-and-merge state machine.
// ---------------------------------------------------------------------------

/// The stage of a compute cycle.
#[derive(Clone, Copy, Debug, PartialEq, Eq, Structural)]
pub enum State {
    /// No work is scheduled; new iterations may be started.
    NoWork,
    /// Sequences are computing; some of them have not come back yet.
    ComputeSequences,
    /// Every sequence has come back and the workers' histograms are being
    /// merged into the main one.
    MergingHistograms,
}

/// The model of a compute schedule: its stage, the number of sequences that
/// are still computing, and whether the main histogram is at hand (it is away
/// while it is being merged).
pub struct ScheduleView {
    pub state: State,
    pub active_sequences_count: nat,
    pub histogram_present: bool,
}

impl ScheduleView {
    /// The stage in which a schedule starts: nothing scheduled, the main
    /// histogram at hand.
    pub open spec fn idle() -> ScheduleView {
        ScheduleView { state: State::NoWork, active_sequences_count: 0, histogram_present: true }
    }

    /// After `sequences_number` sequences have been handed out to compute.
    pub open spec fn started(sequences_number: nat) -> ScheduleView {
        ScheduleView {
            state: State::ComputeSequences,
            active_sequences_count: sequences_number,
            histogram_present: true,
        }
    }

    /// The stage in which the main histogram is away being merged.
    pub open spec fn merging() -> ScheduleView {
        ScheduleView {
            state: State::MergingHistograms,
            active_sequences_count: 0,
            histogram_present: false,
        }
    }

    /// After `returned` more sequences have come back: once none is left
    /// computing, the main histogram is handed to the merge.
    pub open spec fn after_returned(self, returned: nat) -> ScheduleView {
        let left = (self.active_sequences_count - returned) as nat;
        if left == 0 {
            ScheduleView::merging()
        } else {
            ScheduleView { active_sequences_count: left, ..self }
        }
    }

    /// After polling for the merged histogram: when it has arrived it is the
    /// main histogram again and the cycle is over.
    pub open spec fn after_received(self, received: bool) -> ScheduleView {
        if received {
            ScheduleView::idle()
        } else {
            self
        }
    }

    /// What one poll may observe: while computing, at most the sequences that
    /// are out come back and no merged histogram; while merging, no sequence;
    /// when idle, nothing.
    pub open spec fn poll_allowed(self, returned: nat, arrived: bool) -> bool {
        match self.state {
            State::ComputeSequences => returned <= self.active_sequences_count && !arrived,
            State::MergingHistograms => returned == 0,
            State::NoWork => returned == 0 && !arrived,
        }
    }

    /// The schedule after a poll that saw `returned` sequences come back and,
    /// when `arrived`, the merged histogram.
    pub open spec fn after_poll(self, returned: nat, arrived: bool) -> ScheduleView {
        match self.state {
            State::ComputeSequences => self.after_returned(returned),
            State::MergingHistograms => self.after_received(arrived),
            State::NoWork => self,
        }
    }

    /// The answer of a poll: true exactly when the merged histogram arrives
    /// while merging.
    pub open spec fn poll_answer(self, returned: nat, arrived: bool) -> bool {
        self.state == State::MergingHistograms && arrived
    }

    /// Sequences are computing exactly while some of them are still out, and
    /// the main histogram is away exactly while merging.
    pub open spec fn wf(self) -> bool {
        &&& (self.state == State::ComputeSequences) == (self.active_sequences_count > 0)
        &&& self.histogram_present == (self.state != State::MergingHistograms)
    }
}

/// What a poll gives back: whether a merged histogram has just arrived, and
/// the main histogram when it must now be handed to the merge.
pub struct PollOutcome<H> {
    pub merged: bool,
    pub histogram_to_merge: Option<H>,
}

/// The decisions of a compute cycle, and the main histogram they guard: when
/// iterations may start, how they are shared among sequences, when the main
/// histogram leaves to be merged and when it comes back.
pub struct ComputeSchedule<H> {
    state: State,
    active_sequences_count: usize,
    main_histogram: Option<H>,
}

impl<H> View for ComputeSchedule<H> {
    type V = ScheduleView;

    closed spec fn view(&self) -> ScheduleView {
        ScheduleView {
            state: self.state,
            active_sequences_count: self.active_sequences_count as nat,
            histogram_present: self.main_histogram is Some,
        }
    }
}

impl<H> ComputeSchedule<H> {
    #[verifier::type_invariant]
    closed spec fn inv(self) -> bool {
        self@.wf()
    }

    /// The main histogram the schedule holds, if it is at hand.
    pub closed spec fn main_histogram(self) -> Option<H> {
        self.main_histogram
    }

    /// A schedule with nothing scheduled, holding `main_histogram`.
    pub fn new(main_histogram: H) -> (s: Self)
        ensures
            s@ == ScheduleView::idle(),
            s.main_histogram() == Some(main_histogram),
    {
        Self { state: State::NoWork, active_sequences_count: 0, main_histogram: Some(main_histogram) }
    }

    /// The current stage.
    pub fn state(&self) -> (st: State)
        ensures
            st == self@.state,
            self@.wf(),
    {
        proof {
            use_type_invariant(self);
        }
        self.state
    }

    /// The number of sequences that have not come back yet.
    pub fn active_sequences_count(&self) -> (n: usize)
        ensures
            n == self@.active_sequences_count,
            self@.wf(),
    {
        proof {
            use_type_invariant(self);
        }
        self.active_sequences_count
    }

    /// The main histogram, unless it is away being merged.
    pub fn get_histogram(&self) -> (h: Option<&H>)
        ensures
            h is Some == self@.histogram_present,
            h matches Some(r) ==> self.main_histogram() == Some(*r),
            self@.wf(),
    {
        proof {
            use_type_invariant(self);
        }
        match &self.main_histogram {
            Some(h) => Some(h),
            None => None,
        }
    }

    /// Takes the main histogram out, leaving the schedule merging with no
    /// sequence out and no histogram at hand.
    fn take_main_histogram(&mut self) -> (h: Option<H>)
        ensures
            h == old(self).main_histogram(),
            final(self)@ == ScheduleView::merging(),
    {
        let mut parts = Self {
            state: State::MergingHistograms,
            active_sequences_count: 0,
            main_histogram: None,
        };
        std::mem::swap(self, &mut parts);
        let Self { main_histogram, .. } = parts;
        main_histogram
    }

    /// Starts `iterations_number` iterations over `sequences_number` sequences
    /// and returns how many iterations each sequence runs.
    pub fn run_iterations_in_current_sequences(
        &mut self,
        iterations_number: u64,
        sequences_number: usize,
    ) -> (shares: Vec<u64>)
        requires
            old(self)@.state == State::NoWork,
            iterations_number > 0,
            sequences_number > 0,
        ensures
            final(self)@ == ScheduleView::started(sequences_number as nat),
            final(self).main_histogram() == old(self).main_histogram(),
            shares@ == iteration_shares(iterations_number, sequences_number as nat),
            total_iterations(shares@) == iterations_number,
    {
        proof {
            use_type_invariant(&*self);
        }
        let shares = split_iterations(iterations_number, sequences_number);
        let main_histogram = self.take_main_histogram();
        *self = Self {
            state: State::ComputeSequences,
            active_sequences_count: sequences_number,
            main_histogram,
        };
        shares
    }

    /// One poll: `returned_sequences` sequences have come back and, when
    /// `merged_histogram` holds one, the merged histogram has arrived.  Returns
    /// whether the merged histogram arrived while merging (it becomes the
    /// main histogram again and the cycle ends), and hands out the main
    /// histogram when the last sequence has just come back and merging must
    /// start.
    pub fn try_poll_and_merge(
        &mut self,
        returned_sequences: usize,
        merged_histogram: Option<H>,
    ) -> (r: PollOutcome<H>)
        requires
            old(self)@.poll_allowed(returned_sequences as nat, merged_histogram is Some),
        ensures
            final(self)@ == old(self)@.after_poll(
                returned_sequences as nat,
                merged_histogram is Some,
            ),
            r.merged == old(self)@.poll_answer(returned_sequences as nat, merged_histogram is Some),
            r.histogram_to_merge is Some == (old(self)@.state == State::ComputeSequences
                && final(self)@.state == State::MergingHistograms),
            r.histogram_to_merge is Some ==> r.histogram_to_merge == old(self).main_histogram(),
            r.merged ==> final(self).main_histogram() == merged_histogram,
            !r.merged && r.histogram_to_merge is None ==> final(self).main_histogram() == old(
                self,
            ).main_histogram(),
    {
        proof {
            use_type_invariant(&*self);
        }
        match self.state {
            State::ComputeSequences => {
                let left = self.active_sequences_count - returned_sequences;
                let main_histogram = self.take_main_histogram();
                if left == 0 {
                    PollOutcome { merged: false, histogram_to_merge: main_histogram }
                } else {
                    *self = Self {
                        state: State::ComputeSequences,
                        active_sequences_count: left,
                        main_histogram,
                    };
                    PollOutcome { merged: false, histogram_to_merge: None }
                }
            },
            State::MergingHistograms => {
                match merged_histogram {
                    Some(h) => {
                        *self = Self {
                            state: State::NoWork,
                            active_sequences_count: 0,
                            main_histogram: Some(h),
                        };
                        PollOutcome { merged: true, histogram_to_merge: None }
                    },
                    None => PollOutcome { merged: false, histogram_to_merge: None },
                }
            },
            State::NoWork => PollOutcome { merged: false, histogram_to_merge: None },
        }
    }
}

// ---------------------------------------------------------------------------
// Laws of the compute cycle.
// ---------------------------------------------------------------------------

/// The total of a sequence of batch sizes.
pub open spec fn batch_total(batches: Seq<nat>) -> nat
    decreases batches.len(),
{
    if batches.len() == 0 {
        0
    } else {
        batch_total(batches.drop_last()) + batches.last()
    }
}

/// The schedule after the given polls, each a pair of the number of
/// sequences that came back and whether the merged histogram arrived.
pub open spec fn polls_after(v: ScheduleView, polls: Seq<(nat, bool)>) -> ScheduleView
    decreases polls.len(),
{
    if polls.len() == 0 {
        v
    } else {
        polls_after(v, polls.drop_last()).after_poll(polls.last().0, polls.last().1)
    }
}

/// The answers of the given polls, in order.
pub open spec fn poll_answers(v: ScheduleView, polls: Seq<(nat, bool)>) -> Seq<bool>
    decreases polls.len(),
{
    if polls.len() == 0 {
        Seq::empty()
    } else {
        poll_answers(v, polls.drop_last()).push(
            polls_after(v, polls.drop_last()).poll_answer(polls.last().0, polls.last().1),
        )
    }
}

/// Every one of the given polls observes only what its stage allows.
pub open spec fn polls_allowed(v: ScheduleView, polls: Seq<(nat, bool)>) -> bool {
    forall|i: int|
        0 <= i < polls.len() ==> #[trigger] polls_after(v, polls.take(i)).poll_allowed(
            polls[i].0,
            polls[i].1,
        )
}

/// Polls in which the given batches of sequences come back.
pub open spec fn batch_polls(batches: Seq<nat>) -> Seq<(nat, bool)> {
    batches.map_values(|b: nat| (b, false))
}

/// `n` polls that see nothing.
pub open spec fn empty_polls(n: nat) -> Seq<(nat, bool)> {
    Seq::new(n, |i: int| (0nat, false))
}

/// A full cycle: once every started sequence has come back, the main
/// histogram leaves to be merged; the schedule stays in merging until the
/// merged histogram arrives, and then it is idle again with the histogram at
/// hand.
pub proof fn lemma_full_cycle(sequences_number: nat)
    requires
        sequences_number > 0,
    ensures
        ScheduleView::started(sequences_number).wf(),
        ScheduleView::started(sequences_number).after_returned(sequences_number)
            == ScheduleView::merging(),
        ScheduleView::merging().after_received(false) == ScheduleView::merging(),
        ScheduleView::merging().after_received(true) == ScheduleView::idle(),
{
}

/// Sequences may come back in any batches, each poll seeing one batch, then
/// any number of polls find the merge unfinished, then one finds the merged
/// histogram: the schedule is idle again with the main histogram at hand,
/// every poll observed only what its stage allows, and every answer is false
/// but the last, which is true.
pub proof fn lemma_poll_cycle(sequences_number: nat, batches: Seq<nat>, waits: nat)
    requires
        sequences_number > 0,
        batches.len() > 0,
        batch_total(batches) == sequences_number,
        batch_total(batches.drop_last()) < sequences_number,
    ensures
        ({
            let polls = batch_polls(batches) + empty_polls(waits) + seq![(0nat, true)];
            let v = ScheduleView::started(sequences_number);
            &&& polls_allowed(v, polls)
            &&& polls_after(v, polls) == ScheduleView::idle()
            &&& poll_answers(v, polls).len() == polls.len()
            &&& forall|i: int| 0 <= i < polls.len() - 1 ==> !#[trigger] poll_answers(v, polls)[i]
            &&& poll_answers(v, polls).last()
        }),
{
    let v = ScheduleView::started(sequences_number);
    let a = batch_polls(batches);
    let b = empty_polls(waits);
    let c = seq![(0nat, true)];
    lemma_batch_polls(v, batches);
    lemma_empty_polls(ScheduleView::merging(), waits);
    lemma_polls_concat(v, a, b);
    lemma_polls_concat(v, a + b, c);
    assert(c.drop_last() =~= Seq::<(nat, bool)>::empty());
    assert(polls_after(ScheduleView::merging(), c) == ScheduleView::idle());
    assert(poll_answers(ScheduleView::merging(), c.drop_last()) =~= Seq::<bool>::empty());
    assert(polls_after(ScheduleView::merging(), c.drop_last()) == ScheduleView::merging());
    assert(poll_answers(ScheduleView::merging(), c) =~= seq![true]);
    assert(polls_allowed(ScheduleView::merging(), c)) by {
        assert(c.take(0) =~= Seq::<(nat, bool)>::empty());
    }
    let polls = a + b + c;
    assert forall|i: int| 0 <= i < polls.len() - 1 implies !#[trigger] poll_answers(v, polls)[i] by {
        if i < a.len() {
            assert(poll_answers(v, polls)[i] == poll_answers(v, a)[i]);
        } else {
            assert(poll_answers(v, polls)[i] == poll_answers(polls_after(v, a), b)[i - a.len()]);
        }
    }
}

/// Polls over concatenated sequences compose: the second group starts from
/// where the first one left the schedule.
pub proof fn lemma_polls_concat(v: ScheduleView, a: Seq<(nat, bool)>, b: Seq<(nat, bool)>)
    ensures
        polls_after(v, a + b) == polls_after(polls_after(v, a), b),
        poll_answers(v, a + b) == poll_answers(v, a) + poll_answers(polls_after(v, a), b),
        polls_allowed(v, a) && polls_allowed(polls_after(v, a), b) ==> polls_allowed(v, a + b),
        poll_answers(v, a).len() == a.len(),
    decreases b.len(),
{
    lemma_poll_answers_len(v, a);
    if b.len() == 0 {
        assert(a + b =~= a);
        assert(poll_answers(v, a) + poll_answers(polls_after(v, a), b) =~= poll_answers(v, a));
    } else {
        assert((a + b).drop_last() =~= a + b.drop_last());
        lemma_polls_concat(v, a, b.drop_last());
        assert(poll_answers(v, a + b) =~= poll_answers(v, a) + poll_answers(polls_after(v, a), b));
    }
    if polls_allowed(v, a) && polls_allowed(polls_after(v, a), b) {
        assert forall|i: int| 0 <= i < (a + b).len() implies #[trigger] polls_after(
            v,
            (a + b).take(i),
        ).poll_allowed((a + b)[i].0, (a + b)[i].1) by {
            if i < a.len() {
                assert((a + b).take(i) =~= a.take(i));
            } else {
                let j = i - a.len();
                assert((a + b).take(i) =~= a + b.take(j));
                lemma_polls_concat(v, a, b.take(j));
                assert(polls_after(polls_after(v, a), b.take(j)).poll_allowed(b[j].0, b[j].1));
            }
        }
    }
}

proof fn lemma_poll_answers_len(v: ScheduleView, a: Seq<(nat, bool)>)
    ensures
        poll_answers(v, a).len() == a.len(),
    decreases a.len(),
{
    if a.len() > 0 {
        lemma_poll_answers_len(v, a.drop_last());
    }
}

/// While some sequence is still out, polls that bring back batches keep the
/// schedule computing with the rest still active, and answer false.
proof fn lemma_batch_polls_partial(v: ScheduleView, batches: Seq<nat>)
    requires
        v.state == State::ComputeSequences,
        v.wf(),
        batch_total(batches) < v.active_sequences_count,
    ensures
        polls_after(v, batch_polls(batches)) == (ScheduleView {
            active_sequences_count: (v.active_sequences_count - batch_total(batches)) as nat,
            ..v
        }),
        polls_allowed(v, batch_polls(batches)),
        forall|i: int|
            0 <= i < batches.len() ==> !#[trigger] poll_answers(v, batch_polls(batches))[i],
    decreases batches.len(),
{
    let p = batch_polls(batches);
    lemma_poll_answers_len(v, p);
    if batches.len() == 0 {
        assert(polls_after(v, p) =~= v) by {
            assert(p.len() == 0);
        }
    } else {
        let init = batches.drop_last();
        assert(p.drop_last() =~= batch_polls(init));
        lemma_batch_polls_partial(v, init);
        let last: Seq<(nat, bool)> = seq![(batches.last(), false)];
        assert(p =~= batch_polls(init) + last);
        let w = polls_after(v, batch_polls(init));
        assert(last.drop_last() =~= Seq::<(nat, bool)>::empty());
        assert(polls_allowed(w, last)) by {
            assert(last.take(0) =~= Seq::<(nat, bool)>::empty());
        }
        lemma_polls_concat(v, batch_polls(init), last);
        lemma_poll_answers_len(v, batch_polls(init));
    }
}

/// Polls that bring back every sequence in batches, the last batch being
/// nonempty, hand the main histogram to the merge, and all answer false.
proof fn lemma_batch_polls(v: ScheduleView, batches: Seq<nat>)
    requires
        v.state == State::ComputeSequences,
        v.wf(),
        batches.len() > 0,
        batch_total(batches) == v.active_sequences_count,
        batch_total(batches.drop_last()) < v.active_sequences_count,
    ensures
        polls_after(v, batch_polls(batches)) == ScheduleView::merging(),
        polls_allowed(v, batch_polls(batches)),
        poll_answers(v, batch_polls(batches)).len() == batches.len(),
        forall|i: int|
            0 <= i < batches.len() ==> !#[trigger] poll_answers(v, batch_polls(batches))[i],
{
    let p = batch_polls(batches);
    let init = batches.drop_last();
    lemma_batch_polls_partial(v, init);
    lemma_poll_answers_len(v, p);
    let last: Seq<(nat, bool)> = seq![(batches.last(), false)];
    assert(p =~= batch_polls(init) + last);
    let w = polls_after(v, batch_polls(init));
    assert(last.drop_last() =~= Seq::<(nat, bool)>::empty());
    assert(polls_allowed(w, last)) by {
        assert(last.take(0) =~= Seq::<(nat, bool)>::empty());
    }
    lemma_polls_concat(v, batch_polls(init), last);
    lemma_poll_answers_len(v, batch_polls(init));
}

/// While merging, polls that see nothing change nothing and answer false.
proof fn lemma_empty_polls(v: ScheduleView, n: nat)
    requires
        v == ScheduleView::merging(),
    ensures
        polls_after(v, empty_polls(n)) == v,
        polls_allowed(v, empty_polls(n)),
        poll_answers(v, empty_polls(n)).len() == n,
        forall|i: int| 0 <= i < n ==> !#[trigger] poll_answers(v, empty_polls(n))[i],
    decreases n,
{
    lemma_poll_answers_len(v, empty_polls(n));
    if n > 0 {
        let m = (n - 1) as nat;
        lemma_empty_polls(v, m);
        let last: Seq<(nat, bool)> = seq![(0nat, false)];
        assert(empty_polls(n) =~= empty_polls(m) + last);
        assert(last.drop_last() =~= Seq::<(nat, bool)>::empty());
        assert(polls_allowed(v, last)) by {
            assert(last.take(0) =~= Seq::<(nat, bool)>::empty());
        }
        lemma_polls_concat(v, empty_polls(m), last);
        lemma_poll_answers_len(v, empty_polls(m));
    } else {
        assert(empty_polls(n) =~= Seq::<(nat, bool)>::empty());
    }
}

// ---------------------------------------------------------------------------
// What one iteration of a sequence does with its point.
// ---------------------------------------------------------------------------

/// The fate of a point after one iteration of a sequence.
#[derive(Clone, Copy, Debug, PartialEq, Eq, Structural)]
pub enum IterationOutcome {
    /// The point fell outside the computed area and is not recorded.
    OutsideArea,
    /// The sequence is still burning in; the point is not recorded.
    Burning,
    /// The point is recorded in the histogram; `first_iteration` tells that it
    /// is the very first iteration of the sequence, whose color starts from
    /// the transform's color.
    Recorded { first_iteration: bool },
}

/// The outcome of an iteration whose point lies in the computed area when
/// `in_area` holds, for a sequence that has already run `iterations_count`
/// iterations and must burn `burn_iterations_count` iterations before it
/// records any point.
pub open spec fn spec_iteration_outcome(
    in_area: bool,
    iterations_count: u64,
    burn_iterations_count: u64,
) -> IterationOutcome {
    if !in_area {
        IterationOutcome::OutsideArea
    } else if iterations_count < burn_iterations_count {
        IterationOutcome::Burning
    } else {
        IterationOutcome::Recorded { first_iteration: iterations_count == 0 }
    }
}

/// Decides what happens to the point of one iteration of a sequence.
pub fn iteration_outcome(in_area: bool, iterations_count: u64, burn_iterations_count: u64) -> (o:
    IterationOutcome)
    ensures
        o == spec_iteration_outcome(in_area, iterations_count, burn_iterations_count),
        !in_area ==> o == IterationOutcome::OutsideArea,
        in_area && iterations_count < burn_iterations_count ==> o == IterationOutcome::Burning,
        in_area && iterations_count >= burn_iterations_count ==> o is Recorded,
        o matches IterationOutcome::Recorded { first_iteration } ==> (first_iteration
            <==> iterations_count == 0),
{
    if !in_area {
        IterationOutcome::OutsideArea
    } else if iterations_count < burn_iterations_count {
        IterationOutcome::Burning
    } else {
        IterationOutcome::Recorded { first_iteration: iterations_count == 0 }
    }
}

/// What one iteration does with its point: a point outside the area is not
/// recorded; inside the area it is not recorded while the sequence has run
/// fewer iterations than the burn-in; otherwise it is recorded, and it counts
/// as the sequence's first iteration exactly when no iteration ran before it.
pub proof fn lemma_iteration_outcome_cases(
    in_area: bool,
    iterations_count: u64,
    burn_iterations_count: u64,
)
    ensures
        !in_area ==> spec_iteration_outcome(in_area, iterations_count, burn_iterations_count)
            == IterationOutcome::OutsideArea,
        in_area && iterations_count < burn_iterations_count ==> spec_iteration_outcome(
            in_area,
            iterations_count,
            burn_iterations_count,
        ) == IterationOutcome::Burning,
        in_area && iterations_count >= burn_iterations_count ==> spec_iteration_outcome(
            in_area,
            iterations_count,
            burn_iterations_count,
        ) == (IterationOutcome::Recorded { first_iteration: iterations_count == 0 }),
        spec_iteration_outcome(in_area, iterations_count, burn_iterations_count) matches
            IterationOutcome::Recorded { first_iteration } ==> (first_iteration
            <==> iterations_count == 0),
{
}

/// Only the very first iteration of a sequence can be reported as first:
/// any iteration after it, whatever the burn-in, is not.
pub proof fn lemma_only_first_iteration_is_first(
    in_area: bool,
    iterations_count: u64,
    burn_iterations_count: u64,
)
    requires
        iterations_count > 0,
    ensures
        spec_iteration_outcome(in_area, iterations_count, burn_iterations_count)
            != (IterationOutcome::Recorded { first_iteration: true }),
{
}

// ---------------------------------------------------------------------------
// From a cell index to a histogram cell.
// ---------------------------------------------------------------------------

/// Clamps the cell indices `(raw_x, raw_y)` into a `width` by `height`
/// histogram: each index is capped at the last column or row.
pub fn clamp_histogram_coords(raw_x: usize, raw_y: usize, width: usize, height: usize) -> (c: (
    usize,
    usize,
))
    requires
        width > 0,
        height > 0,
    ensures
        c.0 == (if raw_x < width { raw_x } else { (width - 1) as usize }),
        c.1 == (if raw_y < height { raw_y } else { (height - 1) as usize }),
{
    let x = if raw_x < width {
        raw_x
    } else {
        width - 1
    };
    let y = if raw_y < height {
        raw_y
    } else {
        height - 1
    };
    (x, y)
}

// ---------------------------------------------------------------------------
// Finishing an iteration.
// ---------------------------------------------------------------------------

/// The cell of a recorded hit, as a pair of integers.
pub open spec fn cell_of(cell: Option<(usize, usize)>) -> Option<(int, int)> {
    match cell {
        Some(c) => Some((c.0 as int, c.1 as int)),
        None => None,
    }
}

/// Finishes one iteration of a sequence: records its hit in `recorded_cell`,
/// if it recorded one, and counts the iteration.
pub fn record_iteration(
    histogram: &mut Histogram,
    iterations_count: &mut u64,
    recorded_cell: Option<(usize, usize)>,
)
    requires
        *old(iterations_count) < u64::MAX,
        recorded_cell matches Some(c) ==> old(histogram)@.in_bounds(c.0 as int, c.1 as int)
            && old(histogram)@.count(c.0 as int, c.1 as int) < u64::MAX,
    ensures
        *final(iterations_count) == *old(iterations_count) + 1,
        final(histogram)@ == old(histogram)@.after_step(cell_of(recorded_cell)),
{
    if let Some((x, y)) = recorded_cell {
        histogram.record_hit(x, y);
    }
    *iterations_count = *iterations_count + 1;
}

} // verus!

use vstd::prelude::*;

use vstd::set_lib::{lemma_int_range, set_int_range};

use crate::source::DrawSource;

verus! {

/// The abstract state of a [`Picker`]: how many lines it has seen, how many
/// it keeps, and the lines it keeps now.
pub struct PickerModel {
    pub seen: nat,
    pub capacity: nat,
    pub chosen: Seq<String>,
}

pub open spec fn min_nat(a: nat, b: nat) -> nat {
    if a <= b { a } else { b }
}

impl PickerModel {
    /// A picker that has seen nothing yet.
    pub open spec fn empty(capacity: nat) -> PickerModel {
        PickerModel { seen: 0, capacity, chosen: Seq::empty() }
    }

    /// The reservoir holds one line per line seen, up to its capacity.
    pub open spec fn wf(self) -> bool {
        self.chosen.len() == min_nat(self.seen, self.capacity)
    }

    pub open spec fn is_full(self) -> bool {
        self.chosen.len() >= self.capacity
    }

    /// One step of Algorithm R: the line is counted; while the reservoir has
    /// room it is appended; afterwards `draw`, meant to be uniform in
    /// `[0, seen)` with `seen` counting this line, chooses the slot it
    /// overwrites, or none when `draw >= capacity`.
    pub open spec fn observe(self, line: String, draw: nat) -> PickerModel {
        let seen = self.seen + 1;
        if !self.is_full() {
            PickerModel { seen, capacity: self.capacity, chosen: self.chosen.push(line) }
        } else if draw < self.capacity {
            PickerModel {
                seen,
                capacity: self.capacity,
                chosen: self.chosen.update(draw as int, line),
            }
        } else {
            PickerModel { seen, capacity: self.capacity, chosen: self.chosen }
        }
    }

    /// Whether the line fed as the `i`-th (from 0) after this state finds the
    /// reservoir full, and so takes a draw.
    pub open spec fn draws_at(self, i: nat) -> bool {
        self.seen + i >= self.capacity
    }

    /// The bounds of the draws made while feeding `n` lines to this state, in
    /// order: one per line that finds the reservoir full, each the count of
    /// lines seen including that line.
    pub open spec fn draw_bounds(self, n: nat) -> Seq<nat>
        decreases n,
    {
        if n == 0 {
            Seq::empty()
        } else {
            let b = self.draw_bounds((n - 1) as nat);
            if self.draws_at((n - 1) as nat) {
                b.push(self.seen + n)
            } else {
                b
            }
        }
    }

    /// The state after feeding `lines` in order, where `drawn` holds the
    /// values returned by the draws, one per line that takes a draw.
    pub open spec fn feed_lines(self, lines: Seq<String>, drawn: Seq<nat>) -> PickerModel
        decreases lines.len(),
    {
        if lines.len() == 0 {
            self
        } else {
            let n = lines.len() - 1;
            if self.draws_at(n as nat) {
                self.feed_lines(lines.take(n), drawn.drop_last()).observe(lines[n], drawn.last())
            } else {
                self.feed_lines(lines.take(n), drawn).observe(lines[n], 0)
            }
        }
    }
}

/// `after` is the record `before` followed by some further draws.
pub open spec fn extends(before: Seq<(nat, nat)>, after: Seq<(nat, nat)>) -> bool {
    before.len() <= after.len() && after.take(before.len() as int) == before
}

/// Feeding `lines` to `s` made exactly the draws recorded after `before` up to
/// `after`, with the bounds the stream asks for, and ended in `t`, computed
/// from the values those draws returned.
pub open spec fn fed_from(
    s: PickerModel,
    lines: Seq<String>,
    t: PickerModel,
    before: Seq<(nat, nat)>,
    after: Seq<(nat, nat)>,
) -> bool {
    let made = after.skip(before.len() as int);
    &&& extends(before, after)
    &&& made.map_values(|c: (nat, nat)| c.0) == s.draw_bounds(lines.len())
    &&& t == s.feed_lines(lines, made.map_values(|c: (nat, nat)| c.1))
}

/// Every read in `reads` succeeded.
pub open spec fn all_ok<E>(reads: Seq<Result<String, E>>) -> bool {
    forall|i: int| 0 <= i < reads.len() ==> (#[trigger] reads[i]) is Ok
}

/// The lines carried by the successful reads in `reads`.
pub open spec fn ok_lines<E>(reads: Seq<Result<String, E>>) -> Seq<String> {
    reads.map_values(|r: Result<String, E>| r->Ok_0)
}

/// `e` is the error of the first failed read in `reads`, which is at `i`.
pub open spec fn first_error_at<E>(reads: Seq<Result<String, E>>, i: int, e: E) -> bool {
    &&& 0 <= i < reads.len()
    &&& reads[i] == Err::<String, E>(e)
    &&& all_ok(reads.take(i))
}

/// Observing one line keeps the reservoir well formed and counts the line.
pub proof fn lemma_observe_wf(s: PickerModel, line: String, draw: nat)
    requires
        s.wf(),
    ensures
        s.observe(line, draw).wf(),
        s.observe(line, draw).seen == s.seen + 1,
        s.observe(line, draw).capacity == s.capacity,
{
}

/// Feeding any lines keeps the reservoir well formed and counts them all.
pub proof fn lemma_feed_wf(s: PickerModel, lines: Seq<String>, drawn: Seq<nat>)
    requires
        s.wf(),
    ensures
        s.feed_lines(lines, drawn).wf(),
        s.feed_lines(lines, drawn).seen == s.seen + lines.len(),
        s.feed_lines(lines, drawn).capacity == s.capacity,
    decreases lines.len(),
{
    if lines.len() > 0 {
        let n = lines.len() - 1;
        if s.draws_at(n as nat) {
            lemma_feed_wf(s, lines.take(n), drawn.drop_last());
            lemma_observe_wf(s.feed_lines(lines.take(n), drawn.drop_last()), lines[n], drawn.last());
        } else {
            lemma_feed_wf(s, lines.take(n), drawn);
            lemma_observe_wf(s.feed_lines(lines.take(n), drawn), lines[n], 0);
        }
    }
}

/// A well-formed state is full exactly when the next line takes a draw.
proof fn lemma_full_iff_draws(s: PickerModel)
    requires
        s.wf(),
    ensures
        s.is_full() <==> s.draws_at(0),
{
}

/// Feeding one more line that takes no draw extends the run by one step.
proof fn lemma_feed_push_no_draw(s: PickerModel, lines: Seq<String>, drawn: Seq<nat>, line: String)
    requires
        !s.draws_at(lines.len()),
    ensures
        s.feed_lines(lines.push(line), drawn) == s.feed_lines(lines, drawn).observe(line, 0),
        s.draw_bounds(lines.len() + 1) == s.draw_bounds(lines.len()),
{
    assert(lines.push(line).take(lines.len() as int) =~= lines);
}

/// Feeding one more line that takes a draw extends the run by one step with
/// the value that draw returned.
proof fn lemma_feed_push_draw(
    s: PickerModel,
    lines: Seq<String>,
    drawn: Seq<nat>,
    line: String,
    v: nat,
)
    requires
        s.draws_at(lines.len()),
    ensures
        s.feed_lines(lines.push(line), drawn.push(v)) == s.feed_lines(lines, drawn).observe(line, v),
        s.draw_bounds(lines.len() + 1) == s.draw_bounds(lines.len()).push(s.seen + lines.len() + 1),
{
    assert(lines.push(line).take(lines.len() as int) =~= lines);
    assert(drawn.push(v).drop_last() =~= drawn);
}

/// Memory stays bounded: after a stream of `n` lines a sampler of capacity
/// `k` holds exactly `min(n, k)` lines, whatever the draws returned.
pub proof fn lemma_sample_size(capacity: nat, lines: Seq<String>, drawn: Seq<nat>)
    ensures
        PickerModel::empty(capacity).feed_lines(lines, drawn).chosen.len() == min_nat(
            lines.len(),
            capacity,
        ),
{
    lemma_feed_wf(PickerModel::empty(capacity), lines, drawn);
}

/// A sampler of capacity zero never holds a line.
pub proof fn lemma_zero_capacity_empty(lines: Seq<String>, drawn: Seq<nat>)
    ensures
        PickerModel::empty(0).feed_lines(lines, drawn).chosen.len() == 0,
{
    lemma_sample_size(0, lines, drawn);
}

/// While the stream is no longer than the capacity, no draw is made and the
/// reservoir holds exactly the lines seen, in stream order.
pub proof fn lemma_fill_phase_exact(capacity: nat, lines: Seq<String>, drawn: Seq<nat>)
    requires
        lines.len() <= capacity,
    ensures
        PickerModel::empty(capacity).draw_bounds(lines.len()) == Seq::<nat>::empty(),
        PickerModel::empty(capacity).feed_lines(lines, drawn).chosen == lines,
    decreases lines.len(),
{
    let s = PickerModel::empty(capacity);
    if lines.len() > 0 {
        let n = lines.len() - 1;
        let prefix = lines.take(n);
        lemma_fill_phase_exact(capacity, prefix, drawn);
        lemma_feed_wf(s, prefix, drawn);
        let before = s.feed_lines(prefix, drawn);
        assert(before.chosen.len() == n);
        assert(s.feed_lines(lines, drawn) == before.observe(lines[n], 0));
        assert(before.chosen.push(lines[n]) =~= lines);
    } else {
        assert(lines =~= Seq::<String>::empty());
    }
}

/// Feeding two streams one after the other, with the draws returning the
/// same values, ends where feeding them as one stream ends, with the same
/// draws made: sampling after a pause simply goes on.
pub proof fn lemma_feed_concat(
    s: PickerModel,
    r1: Seq<String>,
    r2: Seq<String>,
    d1: Seq<nat>,
    d2: Seq<nat>,
)
    requires
        s.wf(),
        d1.len() == s.draw_bounds(r1.len()).len(),
        d2.len() == s.feed_lines(r1, d1).draw_bounds(r2.len()).len(),
    ensures
        s.feed_lines(r1 + r2, d1 + d2) == s.feed_lines(r1, d1).feed_lines(r2, d2),
        s.draw_bounds(r1.len() + r2.len()) == s.draw_bounds(r1.len()) + s.feed_lines(
            r1,
            d1,
        ).draw_bounds(r2.len()),
    decreases r2.len(),
{
    lemma_feed_wf(s, r1, d1);
    let mid = s.feed_lines(r1, d1);
    if r2.len() == 0 {
        assert(r1 + r2 =~= r1);
        assert(d1 + d2 =~= d1);
        assert(s.draw_bounds(r1.len()) + mid.draw_bounds(0) =~= s.draw_bounds(r1.len()));
    } else {
        let n = r2.len() - 1;
        let p2 = r2.take(n);
        let whole = r1 + r2;
        assert(whole.take(r1.len() + n) =~= r1 + p2);
        assert(whole[r1.len() + n] == r2[n]);
        assert(whole.len() - 1 == r1.len() + n);
        if mid.draws_at(n as nat) {
            let q2 = d2.drop_last();
            lemma_feed_concat(s, r1, p2, d1, q2);
            assert((d1 + d2).drop_last() =~= d1 + q2);
            assert((d1 + d2).last() == d2.last());
            assert(s.draw_bounds(r1.len()) + mid.draw_bounds(n as nat).push((mid.seen + n + 1) as nat)
                =~= (s.draw_bounds(r1.len()) + mid.draw_bounds(n as nat)).push(
                (s.seen + r1.len() + n + 1) as nat,
            ));
        } else {
            lemma_feed_concat(s, r1, p2, d1, d2);
        }
    }
}

/// The draws' values are the only source of variation: two runs that feed
/// the same lines to the same state, and whose draws return the same values,
/// end in the same state, slot for slot.
pub proof fn lemma_same_draws_same_reservoir(
    s: PickerModel,
    lines: Seq<String>,
    t1: PickerModel,
    t2: PickerModel,
    before1: Seq<(nat, nat)>,
    after1: Seq<(nat, nat)>,
    before2: Seq<(nat, nat)>,
    after2: Seq<(nat, nat)>,
)
    requires
        fed_from(s, lines, t1, before1, after1),
        fed_from(s, lines, t2, before2, after2),
        after1.skip(before1.len() as int) == after2.skip(before2.len() as int),
    ensures
        t1 == t2,
{
}

/// Draw `d` stores the new line in slot `d` and leaves every other slot as it was.
pub open spec fn stores_in_slot(s: PickerModel, line: String, d: int) -> bool {
    &&& 0 <= d < s.chosen.len()
    &&& s.observe(line, d as nat).chosen == s.chosen.update(d, line)
}

/// Once the reservoir is full, exactly `capacity` of the `seen` possible
/// draws (`seen` counting the new line) store the new line, each in a slot of
/// its own, so a uniform draw keeps it with probability `capacity / seen`;
/// every other draw leaves the reservoir as it was.
pub proof fn lemma_full_step_admission(s: PickerModel, line: String)
    requires
        s.wf(),
        s.is_full(),
    ensures
        Set::new(|d: int| 0 <= d < s.seen + 1 && stores_in_slot(s, line, d)).len() == s.capacity,
        forall|d: nat|
            s.capacity <= d < s.seen + 1 ==> #[trigger] s.observe(line, d).chosen == s.chosen,
{
    let kept = Set::new(|d: int| 0 <= d < s.seen + 1 && stores_in_slot(s, line, d));
    assert(kept =~= set_int_range(0, s.capacity as int));
    lemma_int_range(0, s.capacity as int);
}

/// Once the reservoir is full, a line already in slot `j` stays there for
/// all but one of the `seen` possible draws (`seen` counting the new line),
/// so a uniform draw keeps it with probability `(seen - 1) / seen`. With the
/// admission step above, a line that arrived as line `i > capacity` of `n` is
/// kept with probability `capacity / i * i / (i + 1) * ... * (n - 1) / n`,
/// that is `capacity / n`.
pub proof fn lemma_full_step_survival(s: PickerModel, line: String, j: int)
    requires
        s.wf(),
        s.is_full(),
        0 <= j < s.chosen.len(),
    ensures
        Set::new(|d: int| 0 <= d < s.seen + 1 && d != j).len() == s.seen,
        forall|d: nat|
            d < s.seen + 1 && d != j ==> (#[trigger] s.observe(line, d).chosen)[j] == s.chosen[j],
{
    let spared = Set::new(|d: int| 0 <= d < s.seen + 1 && d != j);
    lemma_int_range(0, s.seen + 1 as int);
    assert(spared =~= set_int_range(0, s.seen + 1 as int).remove(j));
}

/// A reservoir sampler: keeps a uniform random sample of at most
/// `num_to_choose` lines of a stream of unknown length.
pub struct Picker {
    /// The number of lines seen so far.
    lines_read: usize,
    /// The size of the sample.
    num_to_choose: usize,
    /// The lines chosen so far.
    chosen: Vec<String>,
}

impl View for Picker {
    type V = PickerModel;

    closed spec fn view(&self) -> PickerModel {
        PickerModel {
            seen: self.lines_read as nat,
            capacity: self.num_to_choose as nat,
            chosen: self.chosen@,
        }
    }
}

impl Picker {
    /// An empty sampler that keeps up to `num_to_choose` lines.
    pub fn new(num_to_choose: usize) -> (r: Picker)
        ensures
            r@ == PickerModel::empty(num_to_choose as nat),
            r@.wf(),
    {
        // No room is reserved up front: any capacity is accepted, and the
        // reservoir grows only as lines arrive.
        let chosen: Vec<String> = Vec::new();
        let r = Picker { lines_read: 0, num_to_choose, chosen };
        assert(r@.chosen =~= Seq::<String>::empty());
        r
    }

    /// The number of lines seen so far.
    pub fn seen_count(&self) -> (r: usize)
        ensures
            r == self@.seen,
    {
        self.lines_read
    }

    /// The size of the sample that is kept.
    pub fn capacity(&self) -> (r: usize)
        ensures
            r == self@.capacity,
    {
        self.num_to_choose
    }

    /// The lines chosen so far, in their slot order.
    pub fn finalize(&self) -> (r: &Vec<String>)
        ensures
            r@ == self@.chosen,
    {
        &self.chosen
    }

    /// Observes one line whose draw has already been made: `draw` is only
    /// read when the reservoir is full.
    pub fn observe_drawn(&mut self, line: String, draw: usize)
        requires
            old(self)@.wf(),
            old(self)@.seen < usize::MAX,
        ensures
            final(self)@ == old(self)@.observe(line, draw as nat),
            final(self)@.wf(),
    {
        self.lines_read = self.lines_read + 1;
        if self.chosen.len() < self.num_to_choose {
            self.chosen.push(line);
        } else if draw < self.num_to_choose {
            self.chosen.set(draw, line);
        }
    }

    /// Observes one line. While the reservoir has room the source is left
    /// alone; once it is full exactly one draw is made, below the count of
    /// lines seen including this one, and its value picks the slot.
    pub fn observe<R: DrawSource>(&mut self, line: String, source: &mut R)
        requires
            old(self)@.wf(),
            old(self)@.seen < usize::MAX,
        ensures
            final(self)@.wf(),
            !old(self)@.is_full() ==> {
                &&& final(source).calls() == old(source).calls()
                &&& final(self)@ == old(self)@.observe(line, 0)
            },
            old(self)@.is_full() ==> {
                let calls = final(source).calls();
                &&& calls.len() == old(source).calls().len() + 1
                &&& calls.take(calls.len() - 1) == old(source).calls()
                &&& calls.last().0 == final(self)@.seen
                &&& final(self)@ == old(self)@.observe(line, calls.last().1)
            },
    {
        if self.chosen.len() < self.num_to_choose {
            self.observe_drawn(line, 0);
        } else {
            let draw = source.draw_below(self.lines_read + 1);
            proof {
                let calls = source.calls();
                assert(calls.take(calls.len() - 1) =~= old(source).calls());
            }
            self.observe_drawn(line, draw);
        }
    }

    /// Handles the result of reading one line: a line is observed as by
    /// [`Picker::observe`]; a read error is handed back and leaves the sampler
    /// and the source as they were.
    pub fn feed<R: DrawSource, E>(&mut self, read: Result<String, E>, source: &mut R) -> (r: Result<(), E>)
        requires
            old(self)@.wf(),
            old(self)@.seen < usize::MAX,
        ensures
            final(self)@.wf(),
            match read {
                Ok(line) => {
                    &&& r is Ok
                    &&& fed_from(
                        old(self)@,
                        seq![line],
                        final(self)@,
                        old(source).calls(),
                        final(source).calls(),
                    )
                },
                Err(e) => {
                    &&& r == Err::<(), E>(e)
                    &&& final(self)@ == old(self)@
                    &&& final(source).calls() == old(source).calls()
                },
            },
    {
        match read {
            Ok(line) => {
                let ghost s = self@;
                let ghost c0 = source.calls();
                self.observe(line, source);
                proof {
                    let lines = Seq::<String>::empty();
                    let calls = source.calls();
                    let made = calls.skip(c0.len() as int);
                    lemma_full_iff_draws(s);
                    assert(lines.push(line) =~= seq![line]);
                    if s.is_full() {
                        assert(made =~= seq![calls.last()]);
                        assert(made.map_values(|c: (nat, nat)| c.0) =~= seq![calls.last().0]);
                        assert(made.map_values(|c: (nat, nat)| c.1) =~= seq![calls.last().1]);
                        lemma_feed_push_draw(s, lines, Seq::empty(), line, calls.last().1);
                        assert(Seq::<nat>::empty().push(calls.last().1) =~= seq![calls.last().1]);
                    } else {
                        assert(calls.take(c0.len() as int) =~= c0);
                        assert(made =~= Seq::<(nat, nat)>::empty());
                        assert(made.map_values(|c: (nat, nat)| c.0) =~= Seq::<nat>::empty());
                        assert(made.map_values(|c: (nat, nat)| c.1) =~= Seq::<nat>::empty());
                        lemma_feed_push_no_draw(s, lines, Seq::empty(), line);
                    }
                }
                Ok(())
            },
            Err(e) => Err(e),
        }
    }

    /// Observes the lines of `reads` in order, as by [`Picker::observe`], and
    /// stops at the first read error, which it returns.
    pub fn pick<R: DrawSource, E>(&mut self, reads: Vec<Result<String, E>>, source: &mut R) -> (r:
        Result<(), E>)
        requires
            old(self)@.wf(),
            old(self)@.seen + reads@.len() <= usize::MAX,
        ensures
            final(self)@.wf(),
            r is Ok <==> all_ok(reads@),
            r is Ok ==> final(self)@.seen == old(self)@.seen + reads@.len() && fed_from(
                old(self)@,
                ok_lines(reads@),
                final(self)@,
                old(source).calls(),
                final(source).calls(),
            ),
            r is Err ==> exists|i: int|
                #[trigger] first_error_at(reads@, i, r->Err_0) && final(self)@.seen == old(self)@.seen
                    + i && fed_from(
                    old(self)@,
                    ok_lines(reads@.take(i)),
                    final(self)@,
                    old(source).calls(),
                    final(source).calls(),
                ),
    {
        let ghost orig = reads@;
        let ghost start = self@;
        let ghost c0 = source.calls();
        let n = reads.len();
        let mut rest = reads;
        // Reverse the reads so that popping yields them in stream order.
        let mut pending: Vec<Result<String, E>> = Vec::new();
        while rest.len() > 0
            invariant
                rest@ == orig.take(rest@.len() as int),
                pending@.len() + rest@.len() == n,
                n == orig.len(),
                forall|k: int| 0 <= k < pending@.len() ==> pending@[k] == orig[n - 1 - k],
            decreases rest@.len(),
        {
            let item = rest.pop().unwrap();
            pending.push(item);
            assert(rest@ =~= orig.take(rest@.len() as int));
        }
        proof {
            assert(source.calls().skip(c0.len() as int) =~= Seq::<(nat, nat)>::empty());
            assert(source.calls().take(c0.len() as int) =~= c0);
            assert(ok_lines(orig.take(0)) =~= Seq::<String>::empty());
            assert(Seq::<(nat, nat)>::empty().map_values(|c: (nat, nat)| c.0) =~= Seq::<
                nat,
            >::empty());
            assert(Seq::<(nat, nat)>::empty().map_values(|c: (nat, nat)| c.1) =~= Seq::<
                nat,
            >::empty());
        }
        let mut i: usize = 0;
        while i < n
            invariant
                0 <= i <= n,
                n == orig.len(),
                pending@.len() == n - i,
                forall|k: int| 0 <= k < pending@.len() ==> pending@[k] == orig[n - 1 - k],
                start == old(self)@,
                c0 == old(source).calls(),
                orig == reads@,
                start.wf(),
                start.seen + n <= usize::MAX,
                self@.wf(),
                self@.seen == start.seen + i,
                self@.capacity == start.capacity,
                all_ok(orig.take(i as int)),
                fed_from(start, ok_lines(orig.take(i as int)), self@, c0, source.calls()),
            decreases n - i,
        {
            let item = pending.pop().unwrap();
            assert(item == orig[i as int]);
            match item {
                Ok(line) => {
                    let ghost before = self@;
                    let ghost calls0 = source.calls();
                    let ghost prev = ok_lines(orig.take(i as int));
                    self.observe(line, source);
                    proof {
                        assert(ok_lines(orig.take(i + 1)) =~= prev.push(line));
                        assert(orig.take(i + 1) =~= orig.take(i as int).push(orig[i as int]));
                        assert(prev.len() == i);
                        lemma_full_iff_draws(before);
                        assert(before.draws_at(0) == start.draws_at(i as nat));
                        let calls = source.calls();
                        let made0 = calls0.skip(c0.len() as int);
                        let made = calls.skip(c0.len() as int);
                        if before.is_full() {
                            assert(calls =~= calls0.push(calls.last()));
                            assert(made =~= made0.push(calls.last()));
                            assert(calls.take(c0.len() as int) =~= c0);
                            assert(made.map_values(|c: (nat, nat)| c.0) =~= made0.map_values(
                                |c: (nat, nat)| c.0,
                            ).push(calls.last().0));
                            assert(made.map_values(|c: (nat, nat)| c.1) =~= made0.map_values(
                                |c: (nat, nat)| c.1,
                            ).push(calls.last().1));
                            lemma_feed_push_draw(
                                start,
                                prev,
                                made0.map_values(|c: (nat, nat)| c.1),
                                line,
                                calls.last().1,
                            );
                        } else {
                            lemma_feed_push_no_draw(
                                start,
                                prev,
                                made0.map_values(|c: (nat, nat)| c.1),
                                line,
                            );
                        }
                    }
                    i = i + 1;
                },
                Err(e) => {
                    let ghost j: int = i as int;
                    let r: Result<(), E> = Err(e);
                    assert(first_error_at(orig, j, r->Err_0));
                    return r;
                },
            }
        }
        assert(orig.take(n as int) =~= orig);
        Ok(())
    }
}

/// Samples up to `capacity` lines from `reads`, drawing from `source` as
/// [`Picker::pick`] does. A failed read anywhere in the stream yields the
/// first such error and no sample at all.
pub fn sample<R: DrawSource, E>(capacity: usize, reads: Vec<Result<String, E>>, source: &mut R) -> (r:
    Result<Vec<String>, E>)
    ensures
        r is Ok <==> all_ok(reads@),
        r matches Ok(v) ==> exists|t: PickerModel|
            fed_from(
                PickerModel::empty(capacity as nat),
                ok_lines(reads@),
                t,
                old(source).calls(),
                final(source).calls(),
            ) && v@ == t.chosen,
        r is Err ==> exists|i: int| #[trigger] first_error_at(reads@, i, r->Err_0),
{
    let mut picker = Picker::new(capacity);
    // A vector's length fits in `usize`, so the count of lines cannot overflow.
    assert(reads@.len() == reads.len());
    match picker.pick(reads, source) {
        Ok(()) => Ok(picker.chosen),
        Err(e) => {
            let r: Result<Vec<String>, E> = Err(e);
            assert(r->Err_0 == e);
            r
        },
    }
}

} // verus!

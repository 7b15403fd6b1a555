use vstd::prelude::*;
use vstd::arithmetic::div_mod::{
    lemma_div_is_ordered, lemma_div_multiples_vanish, lemma_fundamental_div_mod, lemma_mod_pos_bound,
};
use vstd::arithmetic::mul::lemma_mul_inequality;
use crate::factor::{lemma_step_bounds, width_for, width_of, Factor, FRAME_UNITS, MAX_RATIO, MAX_WIDTH};

verus! {

/// The most input frames a context takes in over its lifetime, so that every stream
/// position fits in 64 bits.
pub const MAX_FRAMES: u64 = 0xFF00_0000;

/// Position up to which output frames can be computed once `consumed` input frames are
/// held: `width` frames short of the input's end, since the filter looks that far ahead,
/// or the end itself when the input is known to be over (`flush`), the rest being silence.
pub open spec fn horizon(consumed: nat, width: nat, flush: bool) -> nat {
    if flush {
        (consumed * FRAME_UNITS) as nat
    } else if consumed > width {
        ((consumed - width) * FRAME_UNITS) as nat
    } else {
        0
    }
}

/// Number of positions `next, next + step, next + 2 * step, ...` that lie below `h`.
pub open spec fn ready_count(next: nat, step: nat, h: nat) -> nat {
    if h <= next || step == 0 {
        0
    } else {
        ((h - next + step - 1) / (step as int)) as nat
    }
}

/// The `n` output positions `start, start + step, ...`.
pub open spec fn run(start: nat, step: nat, n: nat) -> Seq<u64> {
    Seq::new(n, |i: int| (start + i * step) as u64)
}

/// How a call to `process` ended.
pub enum Outcome {
    /// `consumed` leading input frames were taken in; `taps` holds the output frames
    /// delivered, each as the input position (in `FRAME_UNITS`) the filter is centred on.
    Processed { consumed: u64, taps: Vec<u64> },
    /// The stream was flushed and fully drained by an earlier call: nothing more will come.
    EndOfStream,
    /// The call was refused; the context is left as it was.
    Failed(ProcessError),
}

#[derive(Clone, Copy, Debug, PartialEq, Eq, Structural)]
pub enum ProcessError {
    /// The factor lies outside the range the context was opened with.
    FactorOutOfRange,
    /// Taking in the offered input would carry the stream past `MAX_FRAMES`.
    StreamTooLong,
}

/// One conversion context: its fixed configuration and its streaming state.
pub struct Resample {
    high_quality: bool,
    min_factor: Factor,
    max_factor: Factor,
    width: u64,
    /// Input frames taken in since the context was opened.
    consumed: u64,
    /// Position of the next output frame not yet computed.
    next: u64,
    /// Output frames computed but not yet delivered, oldest first.
    pending: Vec<u64>,
    /// Set once a flushing call has left nothing more to emit.
    drained: bool,
    /// Every output frame delivered so far.
    emitted: Ghost<Seq<u64>>,
    /// The step of each successful `process` call so far.
    steps: Ghost<Seq<nat>>,
}

/// `ceil(x / s)` counts the multiples of `s` below `x`.
proof fn lemma_ceil_div(x: int, s: int, m: int)
    requires
        x > 0,
        s > 0,
        m >= 0,
    ensures
        (m < (x + s - 1) / s) == (m * s < x),
{
    lemma_fundamental_div_mod(x + s - 1, s);
    lemma_mod_pos_bound(x + s - 1, s);
    let q = (x + s - 1) / s;
    let r = (x + s - 1) % s;
    assert((m < q) == (m * s < x)) by (nonlinear_arith)
        requires
            x + s - 1 == s * q + r,
            0 <= r < s,
            m >= 0,
    ;
}

/// The positions below `h` starting at `next` all lie below `h`, and the first one left
/// out lies at `h` or above, less than one step past it.
proof fn lemma_ready(next: nat, step: nat, h: nat)
    requires
        step > 0,
    ensures
        next + ready_count(next, step, h) * step >= h,
        ready_count(next, step, h) > 0 ==> next + ready_count(next, step, h) * step < h + step,
        ready_count(next, step, h) > 0 ==> next + (ready_count(next, step, h) - 1) * step < h,
{
    let n = ready_count(next, step, h);
    if h > next {
        let x = h - next;
        lemma_ceil_div(x, step as int, n as int);
        if n > 0 {
            lemma_ceil_div(x, step as int, n - 1);
            assert(n * step == (n - 1) * step + step) by (nonlinear_arith);
        }
    }
}

/// Runs split where their positions do.
proof fn lemma_run_split(a: nat, s: nat, j: nat, k: nat)
    ensures
        run(a, s, j) + run(a + j * s, s, k) =~= run(a, s, j + k),
{
    assert forall|i: int| j <= i < j + k implies #[trigger] run(a, s, j + k)[i] == (run(a, s, j)
        + run(a + j * s, s, k))[i] by {
        assert(a + j * s + (i - j) * s == a + i * s) by (nonlinear_arith);
    }
}

/// Appends the positions `start + k * step` for `from <= k < to`.
fn push_run(out: &mut Vec<u64>, start: u64, step: u64, from: u64, to: u64)
    requires
        from <= to,
        to == 0 || start + (to - 1) * step <= u64::MAX,
    ensures
        final(out)@ == old(out)@ + run((start + from * step) as nat, step as nat, (to - from) as nat),
{
    let mut k: u64 = from;
    while k < to
        invariant
            from <= k <= to,
            to == 0 || start + (to - 1) * step <= u64::MAX,
            out@ == old(out)@ + run((start + from * step) as nat, step as nat, (k - from) as nat),
        decreases to - k,
    {
        proof {
            lemma_mul_inequality(k as int, (to - 1) as int, step as int);
        }
        let p: u64 = start + k * step;
        out.push(p);
        proof {
            assert(start + from * step + (k - from) * step == start + k * step) by (nonlinear_arith);
            assert(out@ =~= old(out)@ + run((start + from * step) as nat, step as nat, (k + 1 - from) as nat));
        }
        k = k + 1;
    }
}

/// Appends `src[from..to]`.
fn push_slice(out: &mut Vec<u64>, src: &Vec<u64>, from: usize, to: usize)
    requires
        from <= to <= src.len(),
    ensures
        final(out)@ == old(out)@ + src@.subrange(from as int, to as int),
{
    let mut i: usize = from;
    while i < to
        invariant
            from <= i <= to <= src.len(),
            out@ == old(out)@ + src@.subrange(from as int, i as int),
        decreases to - i,
    {
        out.push(src[i]);
        proof {
            assert(out@ =~= old(out)@ + src@.subrange(from as int, i + 1));
        }
        i = i + 1;
    }
}

fn horizon_at(consumed: u64, width: u64, flush: bool) -> (r: u64)
    requires
        consumed <= MAX_FRAMES,
    ensures
        r == horizon(consumed as nat, width as nat, flush),
{
    if flush {
        consumed * FRAME_UNITS
    } else if consumed > width {
        (consumed - width) * FRAME_UNITS
    } else {
        0
    }
}

fn ready_between(next: u64, step: u64, h: u64) -> (r: u64)
    requires
        0 < step <= MAX_RATIO * FRAME_UNITS,
        h <= MAX_FRAMES * FRAME_UNITS,
    ensures
        r == ready_count(next as nat, step as nat, h as nat),
{
    if h <= next {
        0
    } else {
        (h - next + step - 1) / step
    }
}

/// One call under the step `s` that the earlier output followed extends the run.
proof fn lemma_step_on_lattice(e: Seq<u64>, p: Seq<u64>, s: nat, b: nat, fresh: nat, n: nat)
    requires
        e + p == run(0, s, e.len() + p.len()),
        b <= p.len(),
        b < p.len() ==> fresh == 0,
        fresh <= n,
    ensures
        (e + (p.take(b as int) + run(((e.len() + p.len()) * s) as nat, s, fresh))) + (p.skip(
            b as int,
        ) + run(((e.len() + p.len()) * s + fresh * s) as nat, s, (n - fresh) as nat)) == run(
            0,
            s,
            e.len() + p.len() + n,
        ),
        (e.len() + p.len()) * s + n * s == (e.len() + p.len() + n) * s,
{
    let k = e.len() + p.len();
    let t = (k * s) as nat;
    lemma_run_split(t, s, fresh, (n - fresh) as nat);
    lemma_run_split(0, s, k, n);
    assert(p.take(b as int) + p.skip(b as int) =~= p);
    if b < p.len() {
        assert(run(t, s, 0) =~= Seq::<u64>::empty());
    } else {
        assert(p.skip(b as int) =~= Seq::<u64>::empty());
    }
    assert((e + (p.take(b as int) + run(t, s, fresh))) + (p.skip(b as int) + run(
        (t + fresh * s) as nat,
        s,
        (n - fresh) as nat,
    )) =~= run(0, s, k + n));
    assert(k * s + n * s == (k + n) * s) by (nonlinear_arith);
}

impl Resample {
    pub closed spec fn high_quality(self) -> bool {
        self.high_quality
    }

    pub closed spec fn min_factor(self) -> Factor {
        self.min_factor
    }

    pub closed spec fn max_factor(self) -> Factor {
        self.max_factor
    }

    pub closed spec fn filter_width(self) -> nat {
        self.width as nat
    }

    pub closed spec fn consumed_frames(self) -> nat {
        self.consumed as nat
    }

    pub closed spec fn next_position(self) -> nat {
        self.next as nat
    }

    pub closed spec fn pending_taps(self) -> Seq<u64> {
        self.pending@
    }

    pub closed spec fn is_drained(self) -> bool {
        self.drained
    }

    /// Every output frame the context has delivered since it was opened.
    pub closed spec fn emitted(self) -> Seq<u64> {
        self.emitted@
    }

    /// The steps of the successful `process` calls so far, in order.
    pub closed spec fn factor_steps(self) -> Seq<nat> {
        self.steps@
    }

    /// Every successful `process` call so far used step `s`.
    pub open spec fn steady(self, s: nat) -> bool {
        forall|i: int| 0 <= i < self.factor_steps().len() ==> self.factor_steps()[i] == s
    }

    /// Under a single step `s`, the output delivered and pending is the run of positions
    /// from zero, the next one follows it, and it lies less than a step past the input.
    pub open spec fn on_lattice(self, s: nat) -> bool {
        let k = self.emitted().len() + self.pending_taps().len();
        &&& self.emitted() + self.pending_taps() == run(0, s, k)
        &&& self.next_position() == k * s
        &&& self.next_position() < self.consumed_frames() * FRAME_UNITS + s
    }

    pub open spec fn wf(self) -> bool {
        &&& self.min_factor().in_range()
        &&& self.max_factor().in_range()
        &&& self.min_factor().le(self.max_factor())
        &&& self.filter_width() == width_of(self.high_quality(), self.min_factor())
        &&& self.filter_width() <= MAX_WIDTH
        &&& self.consumed_frames() <= MAX_FRAMES
        &&& self.next_position() >= horizon(self.consumed_frames(), self.filter_width(), false)
        &&& self.next_position() < self.consumed_frames() * FRAME_UNITS + MAX_RATIO * FRAME_UNITS
        &&& self.is_drained() ==> self.pending_taps().len() == 0 && self.next_position()
            >= self.consumed_frames() * FRAME_UNITS
        &&& forall|s: nat| s > 0 && #[trigger] self.steady(s) ==> self.on_lattice(s)
    }

    /// Same configuration and same streaming state.
    pub open spec fn same_state(self, o: Resample) -> bool {
        &&& self.high_quality() == o.high_quality()
        &&& self.min_factor() == o.min_factor()
        &&& self.max_factor() == o.max_factor()
        &&& self.filter_width() == o.filter_width()
        &&& self.consumed_frames() == o.consumed_frames()
        &&& self.next_position() == o.next_position()
        &&& self.pending_taps() == o.pending_taps()
        &&& self.is_drained() == o.is_drained()
        &&& self.emitted() == o.emitted()
        &&& self.factor_steps() == o.factor_steps()
    }

    /// A factor within the range the context was opened with.
    pub open spec fn admits(self, f: Factor) -> bool {
        f.in_range() && self.min_factor().le(f) && f.le(self.max_factor())
    }

    /// Pending frames delivered first, up to `capacity`.
    pub open spec fn backlog(self, capacity: nat) -> nat {
        if capacity < self.pending_taps().len() {
            capacity
        } else {
            self.pending_taps().len()
        }
    }

    /// Room left for newly computed frames once the backlog is delivered.
    pub open spec fn room(self, capacity: nat) -> nat {
        (capacity - self.backlog(capacity)) as nat
    }

    /// Input frames held after the call: all that is offered when the frames it makes
    /// ready fit in the room left, else just enough for the last frame that fits.
    pub open spec fn consume_to(self, s: nat, available: nat, capacity: nat, last: bool) -> nat {
        let c = self.consumed_frames();
        let end = c + available;
        let room = self.room(capacity);
        let full = ready_count(self.next_position(), s, horizon(end, self.filter_width(), last));
        if room >= full {
            end
        } else if room == 0 {
            c
        } else {
            let need = self.filter_width() + (self.next_position() + (room - 1) * s)
                / FRAME_UNITS as int + 1;
            if need < end {
                need as nat
            } else {
                end
            }
        }
    }

    /// Output frames that become computable in the call.
    pub open spec fn computed(self, s: nat, available: nat, capacity: nat, last: bool) -> nat {
        let c2 = self.consume_to(s, available, capacity, last);
        let flush = last && c2 == self.consumed_frames() + available;
        ready_count(self.next_position(), s, horizon(c2, self.filter_width(), flush))
    }

    /// Newly computed frames delivered in the call.
    pub open spec fn fresh(self, s: nat, available: nat, capacity: nat, last: bool) -> nat {
        let n = self.computed(s, available, capacity, last);
        let room = self.room(capacity);
        if room < n {
            room
        } else {
            n
        }
    }

    /// The frames the call delivers: the backlog first, then fresh ones.
    pub open spec fn delivered(self, s: nat, available: nat, capacity: nat, last: bool) -> Seq<
        u64,
    > {
        self.pending_taps().take(self.backlog(capacity) as int) + run(
            self.next_position(),
            s,
            self.fresh(s, available, capacity, last),
        )
    }

    /// The frames left pending after the call.
    pub open spec fn kept(self, s: nat, available: nat, capacity: nat, last: bool) -> Seq<u64> {
        let f = self.fresh(s, available, capacity, last);
        self.pending_taps().skip(self.backlog(capacity) as int) + run(
            self.next_position() + f * s,
            s,
            (self.computed(s, available, capacity, last) - f) as nat,
        )
    }
    /// Opens a context of the given quality accepting factors in `[min_factor, max_factor]`,
    /// with an empty history and its first output frame at position zero.
    pub fn new(high_quality: bool, min_factor: Factor, max_factor: Factor) -> (r: Option<Resample>)
        ensures
            r is Some <==> (min_factor.in_range() && max_factor.in_range() && min_factor.le(
                max_factor,
            )),
            (r matches Some(c) ==> {
                &&& c.wf()
                &&& c.high_quality() == high_quality
                &&& c.min_factor() == min_factor
                &&& c.max_factor() == max_factor
                &&& c.filter_width() == width_of(high_quality, min_factor)
                &&& c.consumed_frames() == 0
                &&& c.next_position() == 0
                &&& c.pending_taps().len() == 0
                &&& !c.is_drained()
                &&& c.emitted().len() == 0
                &&& c.factor_steps().len() == 0
            }),
    {
        if !min_factor.is_in_range() || !max_factor.is_in_range() || !min_factor.at_most(
            &max_factor,
        ) {
            return None;
        }
        let width = width_for(high_quality, min_factor);
        let r = Resample {
            high_quality,
            min_factor,
            max_factor,
            width,
            consumed: 0,
            next: 0,
            pending: Vec::new(),
            drained: false,
            emitted: Ghost(Seq::empty()),
            steps: Ghost(Seq::empty()),
        };
        proof {
            assert forall|s: nat| s > 0 && #[trigger] r.steady(s) implies r.on_lattice(s) by {
                assert(r.emitted() + r.pending_taps() =~= run(0, s, 0));
            }
        }
        Some(r)
    }

    /// The filter width fixed when the context was opened.
    pub fn get_filter_width(&self) -> (r: i32)
        requires
            self.wf(),
        ensures
            r == self.filter_width(),
    {
        self.width as i32
    }

    /// An independent context holding a copy of this one's configuration and state.
    pub fn duplicate(&self) -> (r: Resample)
        requires
            self.wf(),
        ensures
            r.wf(),
            r.same_state(*self),
    {
        let mut pending: Vec<u64> = Vec::new();
        push_slice(&mut pending, &self.pending, 0, self.pending.len());
        proof {
            assert(pending@ =~= self.pending@);
        }
        let r = Resample {
            high_quality: self.high_quality,
            min_factor: self.min_factor,
            max_factor: self.max_factor,
            width: self.width,
            consumed: self.consumed,
            next: self.next,
            pending,
            drained: self.drained,
            emitted: Ghost(self.emitted@),
            steps: Ghost(self.steps@),
        };
        proof {
            assert forall|s: nat| s > 0 && #[trigger] r.steady(s) implies r.on_lattice(s) by {
                assert(r.factor_steps() == self.factor_steps());
                assert(self.steady(s));
            }
        }
        r
    }

    /// Offers `available` input frames at `factor`, with room for `capacity` output frames;
    /// `is_last` says no input will follow the offered frames.
    #[verifier::rlimit(100)]
    pub fn process(&mut self, factor: Factor, available: u64, capacity: usize, is_last: bool) -> (r:
        Outcome)
        requires
            old(self).wf(),
        ensures
            final(self).wf(),
            final(self).high_quality() == old(self).high_quality(),
            final(self).min_factor() == old(self).min_factor(),
            final(self).max_factor() == old(self).max_factor(),
            final(self).filter_width() == old(self).filter_width(),
            (r matches Outcome::Processed { consumed, taps } ==> consumed <= available && taps.len()
                <= capacity),
            old(self).is_drained() ==> r is EndOfStream && final(self).same_state(*old(self)),
            !old(self).is_drained() && !old(self).admits(factor) ==> (r matches Outcome::Failed(e)
                && e == ProcessError::FactorOutOfRange) && final(self).same_state(*old(self)),
            !old(self).is_drained() && old(self).admits(factor) && old(self).consumed_frames()
                + available > MAX_FRAMES ==> (r matches Outcome::Failed(e) && e
                == ProcessError::StreamTooLong) && final(self).same_state(*old(self)),
            !old(self).is_drained() && old(self).admits(factor) && old(self).consumed_frames()
                + available <= MAX_FRAMES ==> {
                let s = factor.step();
                let c2 = old(self).consume_to(s, available as nat, capacity as nat, is_last);
                let kept = old(self).kept(s, available as nat, capacity as nat, is_last);
                &&& (r matches Outcome::Processed { consumed, taps } && consumed == c2
                    - old(self).consumed_frames() && taps@ == old(self).delivered(
                    s,
                    available as nat,
                    capacity as nat,
                    is_last,
                ) && final(self).emitted() == old(self).emitted() + taps@)
                &&& final(self).consumed_frames() == c2
                &&& final(self).next_position() == old(self).next_position() + old(self).computed(
                    s,
                    available as nat,
                    capacity as nat,
                    is_last,
                ) * s
                &&& final(self).pending_taps() == kept
                &&& final(self).is_drained() == (is_last && c2 == old(self).consumed_frames()
                    + available && kept.len() == 0)
                &&& final(self).factor_steps() == old(self).factor_steps().push(s)
            },
    {
        if self.drained {
            return Outcome::EndOfStream;
        }
        if !factor.is_in_range() || !self.min_factor.at_most(&factor) || !factor.at_most(
            &self.max_factor,
        ) {
            return Outcome::Failed(ProcessError::FactorOutOfRange);
        }
        if available > MAX_FRAMES - self.consumed {
            return Outcome::Failed(ProcessError::StreamTooLong);
        }
        let ghost pre = *self;
        let s = factor.step_units();
        let c0 = self.consumed;
        let t = self.next;
        let w = self.width;
        let end = c0 + available;
        let plen = self.pending.len();
        let backlog: usize = if capacity < plen {
            capacity
        } else {
            plen
        };
        let room: usize = capacity - backlog;
        let h_full = horizon_at(end, w, is_last);
        let full = ready_between(t, s, h_full);
        let c2: u64 = if room as u64 >= full {
            end
        } else if room == 0 {
            c0
        } else {
            proof {
                lemma_ceil_div((h_full - t) as int, s as int, room - 1);
            }
            let p: u64 = t + (room as u64 - 1) * s;
            let need: u64 = w + p / FRAME_UNITS + 1;
            proof {
                if c0 > w {
                    lemma_div_is_ordered(((c0 - w) * FRAME_UNITS) as int, p as int, FRAME_UNITS as int);
                    lemma_div_multiples_vanish((c0 - w) as int, FRAME_UNITS as int);
                }
            }
            if need < end {
                need
            } else {
                end
            }
        };
        let flush = is_last && c2 == end;
        let h2 = horizon_at(c2, w, flush);
        let n = ready_between(t, s, h2);
        proof {
            lemma_ready(t as nat, s as nat, h2 as nat);
        }
        let fresh: u64 = if (room as u64) < n {
            room as u64
        } else {
            n
        };
        proof {
            if fresh > 0 {
                lemma_mul_inequality((fresh - 1) as int, (n - 1) as int, s as int);
            }
        }
        let mut taps: Vec<u64> = Vec::new();
        push_slice(&mut taps, &self.pending, 0, backlog);
        push_run(&mut taps, t, s, 0, fresh);
        let mut rest: Vec<u64> = Vec::new();
        push_slice(&mut rest, &self.pending, backlog, plen);
        push_run(&mut rest, t, s, fresh, n);
        let next2: u64 = t + n * s;
        self.pending = rest;
        self.consumed = c2;
        self.next = next2;
        self.drained = flush && self.pending.len() == 0;
        self.emitted = Ghost(self.emitted@ + taps@);
        self.steps = Ghost(self.steps@.push(s as nat));
        proof {
            assert(taps@ =~= pre.delivered(s as nat, available as nat, capacity as nat, is_last));
            assert(self.pending@ =~= pre.kept(s as nat, available as nat, capacity as nat, is_last));
            assert forall|s2: nat| s2 > 0 && #[trigger] self.steady(s2) implies self.on_lattice(
                s2,
            ) by {
                let last_i = self.steps@.len() - 1;
                assert(self.factor_steps()[last_i] == s2);
                assert(pre.steady(s2)) by {
                    assert forall|i: int| 0 <= i < pre.factor_steps().len() implies pre.factor_steps()[i]
                        == s2 by {
                        assert(self.factor_steps()[i] == pre.factor_steps()[i]);
                    }
                }
                assert(pre.on_lattice(s2));
                lemma_step_on_lattice(
                    pre.emitted(),
                    pre.pending_taps(),
                    s as nat,
                    backlog as nat,
                    fresh as nat,
                    n as nat,
                );
            }
        }
        Outcome::Processed { consumed: c2 - c0, taps }
    }
}

/// Output at one factor depends on the length of the input alone: a stream fed at a single
/// factor and drained has delivered exactly the positions `0, step, 2 * step, ...` that lie
/// below the end of its whole input, whatever chunks that input came in.
pub proof fn lemma_drained_output(r: Resample, f: Factor)
    requires
        r.wf(),
        f.in_range(),
        r.is_drained(),
        r.steady(f.step()),
    ensures
        r.emitted() == run(0, f.step(), ready_count(0, f.step(), horizon(r.consumed_frames(), r.filter_width(), true))),
{
    let s = f.step();
    lemma_step_bounds(f);
    assert(r.on_lattice(s));
    let k = r.emitted().len();
    let x = r.consumed_frames() * FRAME_UNITS;
    assert(r.emitted() + r.pending_taps() =~= r.emitted());
    assert(k * s >= x && k * s < x + s);
    if x == 0 {
        assert(k == 0) by (nonlinear_arith)
            requires
                k * s < s,
                s > 0,
        ;
    } else {
        lemma_ceil_div(x, s as int, k as int);
        if k > 0 {
            assert((k - 1) * s == k * s - s) by (nonlinear_arith);
            lemma_ceil_div(x, s as int, k - 1);
        }
    }
}

/// Re-chunking: two drained streams that took in the same number of frames at the same
/// single factor have delivered identical output, however each was split into calls and
/// whatever output room each call had.
pub proof fn lemma_rechunking(a: Resample, b: Resample, f: Factor)
    requires
        a.wf(),
        b.wf(),
        f.in_range(),
        a.is_drained(),
        b.is_drained(),
        a.steady(f.step()),
        b.steady(f.step()),
        a.consumed_frames() == b.consumed_frames(),
    ensures
        a.emitted() == b.emitted(),
{
    lemma_drained_output(a, f);
    lemma_drained_output(b, f);
}

/// Independence of duplicates: every part of what a call does (whether the factor is
/// accepted, how much input is taken, what is delivered and what stays pending) is fixed by
/// the context's own state, so a duplicate and its source, driven by the same calls,
/// respond alike whatever is done meanwhile to any other context.
pub proof fn lemma_same_state_same_response(
    a: Resample,
    b: Resample,
    f: Factor,
    available: nat,
    capacity: nat,
    last: bool,
)
    requires
        a.same_state(b),
    ensures
        a.admits(f) == b.admits(f),
        a.is_drained() == b.is_drained(),
        a.consume_to(f.step(), available, capacity, last) == b.consume_to(
            f.step(),
            available,
            capacity,
            last,
        ),
        a.computed(f.step(), available, capacity, last) == b.computed(
            f.step(),
            available,
            capacity,
            last,
        ),
        a.delivered(f.step(), available, capacity, last) == b.delivered(
            f.step(),
            available,
            capacity,
            last,
        ),
        a.kept(f.step(), available, capacity, last) == b.kept(f.step(), available, capacity, last),
{
}

} // verus!

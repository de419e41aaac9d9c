//! Input scheduling: a path of inputs becomes a list of frames, each with the
//! nanosecond offset at which it fires, and a `.tas` byte image of that list.
//! The timing loops themselves (sleep, spin, clock reads) live with the
//! program; the decisions they take and the jitter statistics are here.

use vstd::prelude::*;

verus! {

/// Remaining time above which the driver sleeps instead of spinning (2 ms).
pub const SPIN_THRESHOLD_NS: u64 = 2_000_000;

/// How much of the remaining time a coarse sleep leaves for spinning (1 ms).
pub const SLEEP_MARGIN_NS: u64 = 1_000_000;

/// Version byte of the `.tas` format.
pub const TAS_VERSION: u8 = 1;

/// One scheduled input.
#[derive(Clone, Copy, Debug, PartialEq, Eq)]
pub struct InputFrame {
    pub input_id: u8,
    pub target_ns: u64,
}

/// A compiled macro: the frames in firing order.
pub struct TASDriver {
    frames: Vec<InputFrame>,
}

impl View for TASDriver {
    type V = Seq<InputFrame>;

    closed spec fn view(&self) -> Seq<InputFrame> {
        self.frames@
    }
}

/// `a * b`, held at `u64::MAX`.
pub open spec fn saturating_product(a: int, b: int) -> u64 {
    if a * b > u64::MAX {
        u64::MAX
    } else {
        (a * b) as u64
    }
}

/// The frame period in nanoseconds for a frame rate.
pub open spec fn period_ns(frame_rate_hz: u64) -> int {
    1_000_000_000int / (frame_rate_hz as int)
}

/// The `n` low bytes of `v`, least significant first.
pub open spec fn le_bytes(v: int, n: nat) -> Seq<u8>
    decreases n,
{
    if n == 0 {
        seq![]
    } else {
        seq![(v % 256) as u8] + le_bytes(v / 256, (n - 1) as nat)
    }
}

/// The `.tas` record of a frame: its input id, then its offset as eight bytes.
pub open spec fn frame_record(f: InputFrame) -> Seq<u8> {
    seq![f.input_id] + le_bytes(f.target_ns as int, 8)
}

/// The `.tas` records of frames, in order.
pub open spec fn frame_records(frames: Seq<InputFrame>) -> Seq<u8>
    decreases frames.len(),
{
    if frames.len() == 0 {
        seq![]
    } else {
        frame_records(frames.drop_last()) + frame_record(frames.last())
    }
}

/// A `.tas` image: the magic `TAS\0`, the version, the frame rate and the
/// frame count (each as four little-endian bytes, the low 32 bits), then one
/// record per frame.
pub open spec fn tas_image(frames: Seq<InputFrame>, frame_rate_hz: u64) -> Seq<u8> {
    seq![84u8, 65u8, 83u8, 0u8, TAS_VERSION] + le_bytes(frame_rate_hz as int, 4) + le_bytes(
        frames.len() as int,
        4,
    ) + frame_records(frames)
}

/// Append the `n` low bytes of `v`, least significant first.
fn push_le(out: &mut Vec<u8>, v: u64, n: usize)
    ensures
        final(out)@ == old(out)@ + le_bytes(v as int, n as nat),
    decreases n,
{
    if n > 0 {
        out.push((v % 256) as u8);
        push_le(out, v / 256, n - 1);
        assert(final(out)@ =~= old(out)@ + le_bytes(v as int, n as nat));
    }
}

impl TASDriver {
    /// Schedule the inputs of `path` at `frame_rate_hz`: frame `i` fires at
    /// `i` times the period (held at `u64::MAX`).
    pub fn compile_macro(path: &[u8], frame_rate_hz: u64) -> (r: Self)
        requires
            frame_rate_hz > 0,
        ensures
            r@.len() == path@.len(),
            forall|i: int|
                0 <= i < path@.len() ==> #[trigger] r@[i] == (InputFrame {
                    input_id: path@[i],
                    target_ns: saturating_product(i, period_ns(frame_rate_hz)),
                }),
    {
        let period = 1_000_000_000u64 / frame_rate_hz;
        let mut frames: Vec<InputFrame> = Vec::with_capacity(path.len());
        let mut i: usize = 0;
        while i < path.len()
            invariant
                i <= path@.len(),
                period == period_ns(frame_rate_hz),
                frames@.len() == i,
                forall|j: int|
                    0 <= j < i ==> #[trigger] frames@[j] == (InputFrame {
                        input_id: path@[j],
                        target_ns: saturating_product(j, period_ns(frame_rate_hz)),
                    }),
            decreases path@.len() - i,
        {
            let target_ns = match (i as u64).checked_mul(period) {
                Some(t) => t,
                None => u64::MAX,
            };
            frames.push(InputFrame { input_id: path[i], target_ns });
            i += 1;
        }
        TASDriver { frames }
    }

    /// Number of frames.
    pub fn len(&self) -> (r: usize)
        ensures
            r == self@.len(),
    {
        self.frames.len()
    }

    /// The frames, in firing order.
    pub fn frames(&self) -> (r: &[InputFrame])
        ensures
            r@ == self@,
    {
        self.frames.as_slice()
    }

    /// The `.tas` image of the frames at `frame_rate_hz`.
    pub fn tas_file_bytes(&self, frame_rate_hz: u64) -> (r: Vec<u8>)
        ensures
            r@ == tas_image(self@, frame_rate_hz),
    {
        let mut out: Vec<u8> = Vec::new();
        out.push(84u8);
        out.push(65u8);
        out.push(83u8);
        out.push(0u8);
        out.push(TAS_VERSION);
        push_le(&mut out, frame_rate_hz, 4);
        push_le(&mut out, self.frames.len() as u64, 4);
        let ghost header = out@;
        assert(header =~= seq![84u8, 65u8, 83u8, 0u8, TAS_VERSION] + le_bytes(frame_rate_hz as int, 4)
            + le_bytes(self@.len() as int, 4));
        let mut i: usize = 0;
        while i < self.frames.len()
            invariant
                i <= self@.len(),
                self@ == self.frames@,
                out@ == header + frame_records(self@.subrange(0, i as int)),
            decreases self@.len() - i,
        {
            let f = self.frames[i];
            out.push(f.input_id);
            push_le(&mut out, f.target_ns, 8);
            assert(self@.subrange(0, i + 1).drop_last() =~= self@.subrange(0, i as int));
            assert(out@ =~= header + frame_records(self@.subrange(0, i + 1)));
            i += 1;
        }
        assert(self@.subrange(0, self@.len() as int) =~= self@);
        out
    }
}

// ─── Live injection: decisions and statistics ──────────────────────────────

/// What the driver does while waiting for a frame.
#[derive(Clone, Copy, Debug, PartialEq, Eq)]
pub enum WaitAction {
    /// Sleep this many nanoseconds.
    Sleep(u64),
    /// Spin once.
    Spin,
}

/// With `remaining_ns` left before a frame: sleep all but the last millisecond
/// when more than the spin threshold remains, otherwise spin.
pub fn wait_action(remaining_ns: u64) -> (r: WaitAction)
    ensures
        remaining_ns > SPIN_THRESHOLD_NS ==> r == WaitAction::Sleep(
            (remaining_ns - SLEEP_MARGIN_NS) as u64,
        ),
        remaining_ns <= SPIN_THRESHOLD_NS ==> r == WaitAction::Spin,
{
    if remaining_ns > SPIN_THRESHOLD_NS {
        WaitAction::Sleep(remaining_ns.saturating_sub(SLEEP_MARGIN_NS))
    } else {
        WaitAction::Spin
    }
}

/// Running jitter statistics: extreme values, wrapping sum and sample count.
#[derive(Clone, Copy, Debug, PartialEq, Eq)]
pub struct JitterStats {
    pub max_ns: i64,
    pub min_ns: i64,
    pub sum_ns: i64,
    pub samples: u64,
}

impl JitterStats {
    /// No samples yet.
    pub fn new() -> (r: Self)
        ensures
            r == (JitterStats { max_ns: i64::MIN, min_ns: i64::MAX, sum_ns: 0, samples: 0 }),
    {
        JitterStats { max_ns: i64::MIN, min_ns: i64::MAX, sum_ns: 0, samples: 0 }
    }

    /// Add one sample.
    pub fn record(&mut self, jitter_ns: i64)
        requires
            old(self).samples < u64::MAX,
        ensures
            final(self).max_ns == if jitter_ns > old(self).max_ns {
                jitter_ns
            } else {
                old(self).max_ns
            },
            final(self).min_ns == if jitter_ns < old(self).min_ns {
                jitter_ns
            } else {
                old(self).min_ns
            },
            final(self).sum_ns == old(self).sum_ns.wrapping_add(jitter_ns),
            final(self).samples == old(self).samples + 1,
    {
        if jitter_ns > self.max_ns {
            self.max_ns = jitter_ns;
        }
        if jitter_ns < self.min_ns {
            self.min_ns = jitter_ns;
        }
        self.sum_ns = self.sum_ns.wrapping_add(jitter_ns);
        self.samples = self.samples + 1;
    }
}

} // verus!

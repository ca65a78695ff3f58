//! Assembles exact analysis hops independently of how the capture backend
//! splits audio into packets and polls, and tracks whether capture is
//! currently delivering sound.

use std::collections::VecDeque;
use vstd::arithmetic::div_mod::lemma_fundamental_div_mod_converse;
use vstd::prelude::*;

verus! {

// ---------------------------------------------------------------------------
// Capture activity
// ---------------------------------------------------------------------------

/// Consecutive quiet frames after which capture counts as silent: 40 ms at
/// the given sample rate, rounded up, and at least one frame.
pub open spec fn quiet_limit_for(sample_rate: int) -> int {
    let frames = (sample_rate * 40 + 999) / 1000;
    if frames < 1 {
        1
    } else {
        frames
    }
}

/// The quiet limit is the fewest frames that last at least 40 ms at the
/// sample rate (never fewer than one frame): that many frames cover 40 ms,
/// and one frame fewer would not.
pub proof fn law_quiet_limit_spans_forty_ms(sample_rate: int)
    requires
        sample_rate >= 0,
    ensures
        quiet_limit_for(sample_rate) >= 1,
        quiet_limit_for(sample_rate) * 1000 >= sample_rate * 40,
        quiet_limit_for(sample_rate) == 1 || (quiet_limit_for(sample_rate) - 1) * 1000 < sample_rate
            * 40,
{
    let n: int = sample_rate * 40 + 999;
    let frames: int = n / 1000;
    vstd::arithmetic::div_mod::lemma_fundamental_div_mod(n, 1000);
    vstd::arithmetic::div_mod::lemma_mod_bound(n, 1000);
    assert(frames * 1000 + n % 1000 == n);
}

/// Whether any of the flags at positions `lo .. hi` is set.
pub open spec fn any_set(flags: Seq<bool>, lo: int, hi: int) -> bool
    decreases hi - lo,
{
    if hi <= lo {
        false
    } else {
        flags[hi - 1] || any_set(flags, lo, hi - 1)
    }
}

/// Whether frame `f` of an interleaved packet has an audible sample in any
/// of its `channels` channels (`audible` flags each sample).
pub open spec fn frame_audible(audible: Seq<bool>, channels: int, f: int) -> bool {
    any_set(audible, f * channels, f * channels + channels)
}

/// `any_set` holds exactly when some flag in `lo .. hi` is set.
proof fn lemma_any_set_exists(flags: Seq<bool>, lo: int, hi: int)
    ensures
        any_set(flags, lo, hi) <==> exists|k: int| lo <= k < hi && #[trigger] flags[k],
    decreases hi - lo,
{
    if hi > lo {
        lemma_any_set_exists(flags, lo, hi - 1);
        if any_set(flags, lo, hi - 1) {
            let k: int = choose|k: int| lo <= k < hi - 1 && #[trigger] flags[k];
            assert(lo <= k < hi && flags[k]);
        }
        if flags[hi - 1] {
            assert(lo <= hi - 1 < hi && flags[hi - 1]);
        }
        if exists|k: int| lo <= k < hi && #[trigger] flags[k] {
            let k: int = choose|k: int| lo <= k < hi && #[trigger] flags[k];
            if k < hi - 1 {
                assert(lo <= k < hi - 1 && flags[k]);
            }
        }
    }
}

/// A frame is audible exactly when at least one of its channel samples is
/// audible: one loud channel is enough, and every further loud channel
/// keeps it audible.
pub proof fn law_frame_audible_when_any_channel_is(audible: Seq<bool>, channels: int, f: int)
    ensures
        frame_audible(audible, channels, f) <==> exists|k: int|
            f * channels <= k < f * channels + channels && #[trigger] audible[k],
{
    lemma_any_set_exists(audible, f * channels, f * channels + channels);
}

/// A frame whose samples are all audible is audible.
pub proof fn law_fully_audible_frame_is_audible(audible: Seq<bool>, channels: int, f: int)
    requires
        channels >= 1,
        forall|k: int| f * channels <= k < f * channels + channels ==> #[trigger] audible[k],
    ensures
        frame_audible(audible, channels, f),
{
    law_frame_audible_when_any_channel_is(audible, channels, f);
    assert(audible[f * channels]);
}

/// One frame's effect on the (quiet frame count, active) pair.
pub open spec fn activity_step(quiet: usize, active: bool, audible: bool, limit: usize) -> (usize, bool) {
    if audible {
        (0, true)
    } else {
        let q: usize = if quiet == usize::MAX {
            quiet
        } else {
            (quiet + 1) as usize
        };
        (q, if q >= limit {
            false
        } else {
            active
        })
    }
}

/// The (quiet frame count, active) pair after the first `frames` frames of
/// a packet, starting from `(quiet, active)`.
pub open spec fn activity_after(
    quiet: usize,
    active: bool,
    audible: Seq<bool>,
    channels: int,
    limit: usize,
    frames: nat,
) -> (usize, bool)
    decreases frames,
{
    if frames == 0 {
        (quiet, active)
    } else {
        let prev = activity_after(quiet, active, audible, channels, limit, (frames - 1) as nat);
        activity_step(prev.0, prev.1, frame_audible(audible, channels, frames - 1), limit)
    }
}

/// After `k` trailing quiet frames, at least `k` consecutive quiet frames
/// have been counted.
proof fn lemma_trailing_quiet_counted(
    quiet: usize,
    active: bool,
    audible: Seq<bool>,
    channels: int,
    limit: usize,
    frames: nat,
    k: nat,
)
    requires
        k <= frames,
        k <= usize::MAX,
        forall|f: int| frames - k <= f < frames ==> !#[trigger] frame_audible(audible, channels, f),
    ensures
        activity_after(quiet, active, audible, channels, limit, frames).0 >= k,
    decreases k,
{
    if k > 0 {
        lemma_trailing_quiet_counted(quiet, active, audible, channels, limit, (frames - 1) as nat, (k - 1) as nat);
        assert(!frame_audible(audible, channels, frames - 1));
    }
}

/// A packet whose last frame is audible leaves capture active.
pub proof fn law_audible_frame_activates(
    quiet: usize,
    active: bool,
    audible: Seq<bool>,
    channels: int,
    limit: usize,
    frames: nat,
)
    requires
        frames >= 1,
        frame_audible(audible, channels, frames - 1),
    ensures
        activity_after(quiet, active, audible, channels, limit, frames) == (0usize, true),
{
}

/// Once the last `limit` frames are all quiet, capture is silent, however
/// loud the earlier frames or the previous state were.
pub proof fn law_sustained_quiet_silences(
    quiet: usize,
    active: bool,
    audible: Seq<bool>,
    channels: int,
    limit: usize,
    frames: nat,
)
    requires
        1 <= limit <= frames,
        forall|f: int| frames - limit <= f < frames ==> !#[trigger] frame_audible(audible, channels, f),
    ensures
        !activity_after(quiet, active, audible, channels, limit, frames).1,
{
    lemma_trailing_quiet_counted(quiet, active, audible, channels, limit, frames, limit as nat);
    assert(!frame_audible(audible, channels, frames - 1));
}

/// The whole frames of each packet, one packet after another.
pub open spec fn framed<T>(packets: Seq<Seq<T>>, channels: int) -> Seq<T>
    decreases packets.len(),
{
    if packets.len() == 0 {
        Seq::empty()
    } else {
        framed(packets.drop_last(), channels) + whole_frames(packets.last(), channels)
    }
}

/// The (quiet frame count, active) pair after pushing each packet in turn,
/// starting from `(quiet, active)`.
pub open spec fn activity_through(
    quiet: usize,
    active: bool,
    packets: Seq<Seq<bool>>,
    channels: int,
    limit: usize,
) -> (usize, bool)
    decreases packets.len(),
{
    if packets.len() == 0 {
        (quiet, active)
    } else {
        let prev = activity_through(quiet, active, packets.drop_last(), channels, limit);
        activity_after(
            prev.0,
            prev.1,
            packets.last(),
            channels,
            limit,
            (packets.last().len() as int / channels) as nat,
        )
    }
}

/// Whether one of the last `limit` of the first `frames` frames is audible.
pub open spec fn audible_within(audible: Seq<bool>, channels: int, frames: int, limit: int) -> bool {
    exists|f: int| 0 <= f && frames - limit <= f < frames && #[trigger] frame_audible(audible, channels, f)
}

/// Flags that agree position by position (shifted by `d`) agree on `any_set`.
proof fn lemma_any_set_shift(x: Seq<bool>, y: Seq<bool>, lo: int, hi: int, d: int)
    requires
        forall|k: int| lo <= k < hi ==> x[k] == y[k + d],
    ensures
        any_set(x, lo, hi) == any_set(y, lo + d, hi + d),
    decreases hi - lo,
{
    if hi > lo {
        lemma_any_set_shift(x, y, lo, hi - 1, d);
    }
}

/// Frame `f` of `s + t` is frame `f` of `s` when it lies in `s`.
proof fn lemma_frame_in_prefix(s: Seq<bool>, t: Seq<bool>, ch: int, f: int)
    requires
        ch > 0,
        0 <= f,
        (f + 1) * ch <= s.len(),
    ensures
        frame_audible(s + t, ch, f) == frame_audible(s, ch, f),
{
    assert(f * ch + ch == (f + 1) * ch) by (nonlinear_arith);
    assert(0 <= f * ch) by (nonlinear_arith)
        requires
            0 <= f,
            ch > 0,
    ;
    lemma_any_set_shift(s + t, s, f * ch, f * ch + ch, 0);
}

/// Frame `n + f` of `s + t`, where `s` holds `n` whole frames, is frame `f`
/// of `t`.
proof fn lemma_frame_in_suffix(s: Seq<bool>, t: Seq<bool>, ch: int, n: int, f: int)
    requires
        ch > 0,
        0 <= f,
        s.len() == n * ch,
        (f + 1) * ch <= t.len(),
    ensures
        frame_audible(s + t, ch, n + f) == frame_audible(t, ch, f),
{
    assert((n + f) * ch == n * ch + f * ch) by (nonlinear_arith);
    assert(f * ch + ch == (f + 1) * ch) by (nonlinear_arith);
    assert(0 <= f * ch) by (nonlinear_arith)
        requires
            0 <= f,
            ch > 0,
    ;
    lemma_any_set_shift(s + t, t, (n + f) * ch, (n + f) * ch + ch, -(n * ch));
}

/// Extending the packet does not change the state after its first frames.
proof fn lemma_activity_prefix(
    quiet: usize,
    active: bool,
    s: Seq<bool>,
    t: Seq<bool>,
    ch: int,
    limit: usize,
    frames: nat,
)
    requires
        ch > 0,
        frames * ch <= s.len(),
    ensures
        activity_after(quiet, active, s + t, ch, limit, frames) == activity_after(quiet, active, s, ch, limit, frames),
    decreases frames,
{
    if frames > 0 {
        assert((frames - 1) * ch <= frames * ch) by (nonlinear_arith)
            requires
                ch > 0,
                frames > 0,
        ;
        lemma_activity_prefix(quiet, active, s, t, ch, limit, (frames - 1) as nat);
        lemma_frame_in_prefix(s, t, ch, frames - 1);
    }
}

/// Feeding `s` (whole frames) and then the first `m` frames of `t` is
/// feeding `s + t` up to frame `n + m`.
proof fn lemma_activity_concat(
    quiet: usize,
    active: bool,
    s: Seq<bool>,
    t: Seq<bool>,
    ch: int,
    limit: usize,
    n: nat,
    m: nat,
)
    requires
        ch > 0,
        s.len() == n * ch,
        m * ch <= t.len(),
    ensures
        ({
            let mid = activity_after(quiet, active, s, ch, limit, n);
            activity_after(mid.0, mid.1, t, ch, limit, m) == activity_after(
                quiet,
                active,
                s + t,
                ch,
                limit,
                n + m,
            )
        }),
    decreases m,
{
    if m == 0 {
        lemma_activity_prefix(quiet, active, s, t, ch, limit, n);
    } else {
        assert((m - 1) * ch <= m * ch) by (nonlinear_arith)
            requires
                ch > 0,
                m > 0,
        ;
        lemma_activity_concat(quiet, active, s, t, ch, limit, n, (m - 1) as nat);
        lemma_frame_in_suffix(s, t, ch, n as int, m - 1);
    }
}

/// The whole frames of a packet: length, frame count and content.
proof fn lemma_whole_frames_shape<T>(p: Seq<T>, ch: int)
    requires
        ch > 0,
    ensures
        whole_frames(p, ch).len() == (p.len() as int / ch) * ch,
        whole_frames(p, ch).len() <= p.len(),
        (p.len() as int / ch) >= 0,
{
    lemma_whole_frames_bounds(p.len() as int, ch);
    vstd::arithmetic::div_mod::lemma_div_pos_is_pos(p.len() as int, ch);
}

/// The stream of whole frames of a sequence of packets has whole frames.
proof fn lemma_framed_len<T>(packets: Seq<Seq<T>>, ch: int)
    requires
        ch > 0,
    ensures
        framed(packets, ch).len() == (framed(packets, ch).len() as int / ch) * ch,
    decreases packets.len(),
{
    let s = framed(packets, ch);
    if packets.len() > 0 {
        let prev = framed(packets.drop_last(), ch);
        lemma_framed_len(packets.drop_last(), ch);
        lemma_whole_frames_shape(packets.last(), ch);
        let a = prev.len() as int / ch;
        let b = packets.last().len() as int / ch;
        assert(s.len() == (a + b) * ch) by (nonlinear_arith)
            requires
                s.len() == prev.len() + b * ch,
                prev.len() == a * ch,
        ;
        lemma_fundamental_div_mod_converse(s.len() as int, ch, a + b, 0);
    } else {
        assert(s.len() == 0);
        lemma_fundamental_div_mod_converse(0, ch, 0, 0);
    }
}

/// The silence guard reads the captured frames only: pushing packets one
/// by one leaves the state that feeding all their whole frames at once
/// leaves, whatever the packet boundaries (a trailing partial frame of a
/// packet is dropped).
pub proof fn law_silence_guard_ignores_packet_boundaries(
    quiet: usize,
    active: bool,
    packets: Seq<Seq<bool>>,
    channels: int,
    limit: usize,
)
    requires
        channels > 0,
    ensures
        activity_through(quiet, active, packets, channels, limit) == activity_after(
            quiet,
            active,
            framed(packets, channels),
            channels,
            limit,
            (framed(packets, channels).len() as int / channels) as nat,
        ),
    decreases packets.len(),
{
    if packets.len() == 0 {
        assert(framed(packets, channels).len() == 0);
    } else {
        let rest = packets.drop_last();
        let p = packets.last();
        law_silence_guard_ignores_packet_boundaries(quiet, active, rest, channels, limit);
        lemma_framed_len(rest, channels);
        lemma_whole_frames_shape(p, channels);
        let s = framed(rest, channels);
        let w = whole_frames(p, channels);
        let n = s.len() as int / channels;
        let m = p.len() as int / channels;
        lemma_activity_concat(quiet, active, s, w, channels, limit, n as nat, m as nat);
        let mid = activity_after(quiet, active, s, channels, limit, n as nat);
        assert(activity_after(mid.0, mid.1, w, channels, limit, m as nat) == activity_after(
            mid.0,
            mid.1,
            p,
            channels,
            limit,
            m as nat,
        )) by {
            assert(p =~= w + p.skip(w.len() as int));
            lemma_activity_prefix(mid.0, mid.1, w, p.skip(w.len() as int), channels, limit, m as nat);
        }
        assert(framed(packets, channels).len() == (n + m) * channels) by (nonlinear_arith)
            requires
                framed(packets, channels).len() == s.len() + w.len(),
                s.len() == n * channels,
                w.len() == m * channels,
        ;
        lemma_fundamental_div_mod_converse(framed(packets, channels).len() as int, channels, n + m, 0);
    }
}

/// Trailing quiet frames among the first `frames` frames.
spec fn quiet_tail(audible: Seq<bool>, channels: int, frames: nat) -> nat
    decreases frames,
{
    if frames == 0 {
        0
    } else if frame_audible(audible, channels, frames - 1) {
        0
    } else {
        quiet_tail(audible, channels, (frames - 1) as nat) + 1
    }
}

/// From a fresh start, the guard counts the trailing quiet frames (up to
/// the counter's limit) and is active exactly when an audible frame came
/// and fewer than `limit` quiet frames followed it.
proof fn lemma_fresh_activity(audible: Seq<bool>, channels: int, limit: usize, frames: nat)
    requires
        limit >= 1,
    ensures
        ({
            let t = quiet_tail(audible, channels, frames);
            let st = activity_after(0, false, audible, channels, limit, frames);
            &&& st.0 == (if t <= usize::MAX { t } else { usize::MAX as nat })
            &&& st.1 == (t < frames && t < limit)
            &&& t <= frames
            &&& forall|f: int| frames - t <= f < frames ==> !#[trigger] frame_audible(audible, channels, f)
            &&& t < frames ==> frame_audible(audible, channels, frames - 1 - t)
        }),
    decreases frames,
{
    if frames > 0 {
        lemma_fresh_activity(audible, channels, limit, (frames - 1) as nat);
    }
}

/// From a fresh guard, capture is active exactly when one of the last
/// `limit` frames is audible: an audible frame reactivates at once, and
/// `limit` quiet frames after the last audible one silence it.
pub proof fn law_fresh_guard_tracks_recent_sound(audible: Seq<bool>, channels: int, limit: usize, frames: nat)
    requires
        limit >= 1,
    ensures
        activity_after(0, false, audible, channels, limit, frames).1 == audible_within(
            audible,
            channels,
            frames as int,
            limit as int,
        ),
{
    lemma_fresh_activity(audible, channels, limit, frames);
    let t = quiet_tail(audible, channels, frames);
    if t < frames && t < limit {
        let f = frames - 1 - t;
        assert(frame_audible(audible, channels, f));
    }
    if audible_within(audible, channels, frames as int, limit as int) {
        let f = choose|f: int|
            0 <= f && frames - limit <= f < frames && #[trigger] frame_audible(audible, channels, f);
        assert(f < frames - t);
    }
}

/// A newly created guard fed any sequence of packets is active exactly when
/// one of the last `limit` captured frames is audible, however the frames
/// were split into packets.
pub proof fn law_silence_guard_over_packets(packets: Seq<Seq<bool>>, channels: int, limit: usize)
    requires
        channels > 0,
        limit >= 1,
    ensures
        activity_through(0, false, packets, channels, limit).1 == audible_within(
            framed(packets, channels),
            channels,
            framed(packets, channels).len() as int / channels,
            limit as int,
        ),
{
    law_silence_guard_ignores_packet_boundaries(0, false, packets, channels, limit);
    vstd::arithmetic::div_mod::lemma_div_pos_is_pos(framed(packets, channels).len() as int, channels);
    law_fresh_guard_tracks_recent_sound(
        framed(packets, channels),
        channels,
        limit,
        (framed(packets, channels).len() as int / channels) as nat,
    );
}

/// Whether capture is delivering sound. A quiet packet is still a fresh
/// packet; freshness alone never makes capture active.
pub struct CaptureActivity {
    quiet_frames: usize,
    quiet_limit: usize,
    channels: usize,
    active: bool,
}

impl CaptureActivity {
    #[verifier::type_invariant]
    spec fn inv(self) -> bool {
        self.channels > 0 && self.quiet_limit > 0
    }

    /// Consecutive quiet frames seen so far.
    pub closed spec fn quiet_count(&self) -> usize {
        self.quiet_frames
    }

    /// Quiet frames after which capture counts as silent.
    pub closed spec fn limit(&self) -> usize {
        self.quiet_limit
    }

    /// Interleaved channels per frame.
    pub closed spec fn channel_count(&self) -> usize {
        self.channels
    }

    /// Whether capture currently counts as delivering sound.
    pub closed spec fn is_active(&self) -> bool {
        self.active
    }

    pub fn new(sample_rate: u32, channels: usize) -> (a: Self)
        ensures
            a.limit() == quiet_limit_for(sample_rate as int),
            a.channel_count() == if channels == 0 { 1 } else { channels },
            a.quiet_count() == 0,
            !a.is_active(),
    {
        let frames: u64 = (sample_rate as u64 * 40 + 999) / 1000;
        let limit: usize = if frames < 1 {
            1
        } else {
            frames as usize
        };
        CaptureActivity {
            quiet_frames: 0,
            quiet_limit: limit,
            channels: if channels == 0 {
                1
            } else {
                channels
            },
            active: false,
        }
    }

    /// Feeds one interleaved packet, given as one audibility flag per sample
    /// (a trailing partial frame is ignored). An audible frame makes capture
    /// active; `limit()` consecutive quiet frames make it silent. Returns
    /// whether capture is active afterwards.
    pub fn push(&mut self, audible: &[bool]) -> (active: bool)
        ensures
            ({
                let after = activity_after(
                    old(self).quiet_count(),
                    old(self).is_active(),
                    audible@,
                    old(self).channel_count() as int,
                    old(self).limit(),
                    (audible@.len() as int / (old(self).channel_count() as int)) as nat,
                );
                &&& final(self).quiet_count() == after.0
                &&& final(self).is_active() == after.1
            }),
            final(self).limit() == old(self).limit(),
            final(self).channel_count() == old(self).channel_count(),
            active == final(self).is_active(),
    {
        proof {
            use_type_invariant(&*self);
        }
        let ch = self.channels;
        let len = audible.len();
        let frames = len / ch;
        let ghost q0 = self.quiet_frames;
        let ghost a0 = self.active;
        let mut f: usize = 0;
        while f < frames
            invariant
                ch == self.channels,
                ch == old(self).channels,
                ch > 0,
                self.quiet_limit > 0,
                self.quiet_limit == old(self).quiet_limit,
                q0 == old(self).quiet_frames,
                a0 == old(self).active,
                frames == audible@.len() as int / (ch as int),
                len == audible@.len(),
                f <= frames,
                (self.quiet_frames, self.active) == activity_after(
                    q0,
                    a0,
                    audible@,
                    ch as int,
                    self.quiet_limit,
                    f as nat,
                ),
            decreases frames - f,
        {
            assert(f * ch + ch <= frames * ch) by (nonlinear_arith)
                requires
                    f < frames,
            ;
            assert(frames * ch <= audible@.len()) by (nonlinear_arith)
                requires
                    frames == audible@.len() as int / (ch as int),
                    ch > 0,
            ;
            let base = f * ch;
            let mut c: usize = 0;
            let mut heard = false;
            while c < ch
                invariant
                    0 <= c <= ch,
                    base == f * ch,
                    base + ch <= audible@.len(),
                    len == audible@.len(),
                    heard == any_set(audible@, base as int, base + c),
                decreases ch - c,
            {
                if audible[base + c] {
                    heard = true;
                }
                c = c + 1;
            }
            assert(heard == frame_audible(audible@, ch as int, f as int));
            if heard {
                self.quiet_frames = 0;
                self.active = true;
            } else {
                self.quiet_frames = self.quiet_frames.saturating_add(1);
                if self.quiet_frames >= self.quiet_limit {
                    self.active = false;
                }
            }
            f = f + 1;
        }
        self.active
    }
}

// ---------------------------------------------------------------------------
// Analysis framing
// ---------------------------------------------------------------------------

/// The most recent `n` elements of `s` (all of `s` when it is shorter).
pub open spec fn recent<T>(s: Seq<T>, n: int) -> Seq<T> {
    if s.len() <= n {
        s
    } else {
        s.subrange(s.len() - n, s.len() as int)
    }
}

/// The whole frames of an interleaved packet; a trailing partial frame is
/// dropped.
pub open spec fn whole_frames<T>(samples: Seq<T>, channels: int) -> Seq<T> {
    samples.take(samples.len() as int / channels * channels)
}

/// The windows handed to analysis while the interleaved `stream` grows from
/// `from` to `to` frames: one per completed hop of `hop` frames, each made
/// of the most recent `window` samples up to the end of that hop, paired
/// with that end counted in frames.
pub open spec fn windows_between<T>(
    stream: Seq<T>,
    channels: int,
    window: int,
    hop: int,
    from: int,
    to: int,
) -> Seq<(Seq<T>, int)> {
    Seq::new(
        (to / hop - from / hop) as nat,
        |i: int| window_ending(stream, channels, window, (from / hop + 1 + i) * hop),
    )
}

/// The window that ends after frame `end` of `stream`, with that end.
pub open spec fn window_ending<T>(stream: Seq<T>, channels: int, window: int, end: int) -> (Seq<T>, int) {
    (recent(stream.take(end * channels), window), end)
}

/// Replacing the oldest samples of the recent window by `x` yields the
/// recent window of the extended stream.
proof fn lemma_recent_extend<T>(h: Seq<T>, x: Seq<T>, window: int, remove: int)
    requires
        x.len() <= window,
        remove == (if x.len() > window - recent(h, window).len() {
            x.len() - (window - recent(h, window).len())
        } else {
            0
        }),
    ensures
        recent(h, window).subrange(remove, recent(h, window).len() as int) + x =~= recent(h + x, window),
{
    let r = recent(h, window);
    let lhs = r.subrange(remove, r.len() as int) + x;
    let rhs = recent(h + x, window);
    assert(lhs.len() == rhs.len());
    assert forall|i: int| 0 <= i < lhs.len() implies lhs[i] == rhs[i] by {
        if i < r.len() - remove {
            assert(lhs[i] == r[remove + i]);
        } else {
            assert(lhs[i] == x[i - (r.len() - remove)]);
        }
    }
}

/// Advancing a stream by `frames` frames that do not overrun the current hop.
proof fn lemma_hop_advance(total: int, pending: int, frames: int, hop: int)
    requires
        hop > 0,
        total >= 0,
        frames >= 0,
        pending == total % hop,
        pending + frames <= hop,
    ensures
        pending + frames < hop ==> (total + frames) % hop == pending + frames && (total + frames) / hop
            == total / hop,
        pending + frames == hop ==> (total + frames) % hop == 0 && (total + frames) / hop == total
            / hop + 1,
{
    let q = total / hop;
    assert(total == q * hop + pending) by {
        vstd::arithmetic::div_mod::lemma_fundamental_div_mod(total, hop);
    }
    if pending + frames < hop {
        lemma_fundamental_div_mod_converse(total + frames, hop, q, pending + frames);
    } else {
        assert(total + frames == (q + 1) * hop + 0) by (nonlinear_arith)
            requires
                total == q * hop + pending,
                pending + frames == hop,
        ;
        lemma_fundamental_div_mod_converse(total + frames, hop, q + 1, 0);
    }
}

/// Windows of completed hops depend only on the stream up to those hops.
proof fn lemma_windows_prefix<T>(
    h: Seq<T>,
    x: Seq<T>,
    channels: int,
    window: int,
    hop: int,
    from: int,
    to: int,
)
    requires
        channels > 0,
        hop > 0,
        0 <= from <= to,
        to * channels <= h.len(),
    ensures
        windows_between(h + x, channels, window, hop, from, to) =~= windows_between(
            h,
            channels,
            window,
            hop,
            from,
            to,
        ),
{
    let a = windows_between(h + x, channels, window, hop, from, to);
    let b = windows_between(h, channels, window, hop, from, to);
    assert(from / hop <= to / hop) by {
        vstd::arithmetic::div_mod::lemma_div_is_ordered(from, to, hop);
    }
    assert forall|i: int| 0 <= i < a.len() implies a[i] == b[i] by {
        let end = (from / hop + 1 + i) * hop;
        assert(from / hop + 1 + i <= to / hop);
        assert(end <= to) by {
            vstd::arithmetic::div_mod::lemma_fundamental_div_mod(to, hop);
            vstd::arithmetic::mul::lemma_mul_inequality(from / hop + 1 + i, to / hop, hop);
        }
        assert(0 <= end * channels <= to * channels) by (nonlinear_arith)
            requires
                0 <= end <= to,
                channels > 0,
        ;
        assert((h + x).take(end * channels) =~= h.take(end * channels));
    }
}

proof fn lemma_whole_frames_bounds(len: int, ch: int)
    requires
        len >= 0,
        ch > 0,
    ensures
        0 <= len / ch * ch <= len,
        (len / ch * ch) % ch == 0,
        (len / ch * ch) / ch == len / ch,
{
    vstd::arithmetic::div_mod::lemma_fundamental_div_mod(len, ch);
    vstd::arithmetic::div_mod::lemma_mod_bound(len, ch);
    assert(len / ch * ch <= len) by (nonlinear_arith)
        requires
            len == ch * (len / ch) + len % ch,
            len % ch >= 0,
    ;
    assert(len / ch >= 0) by {
        vstd::arithmetic::div_mod::lemma_div_pos_is_pos(len, ch);
    }
    assert(len / ch * ch >= 0) by (nonlinear_arith)
        requires
            len / ch >= 0,
            ch > 0,
    ;
    lemma_fundamental_div_mod_converse(len / ch * ch, ch, len / ch, 0);
}

proof fn lemma_chunk_bounds(offset: int, complete: int, ch: int)
    requires
        0 <= offset < complete,
        ch > 0,
        offset % ch == 0,
        complete % ch == 0,
    ensures
        (complete - offset) / ch >= 1,
        (complete - offset) / ch * ch <= complete - offset,
        (complete - offset) / ch == complete / ch - offset / ch,
{
    vstd::arithmetic::div_mod::lemma_fundamental_div_mod(offset, ch);
    vstd::arithmetic::div_mod::lemma_fundamental_div_mod(complete, ch);
    let a = offset / ch;
    let b = complete / ch;
    assert(complete - offset == (b - a) * ch) by (nonlinear_arith)
        requires
            offset == ch * a,
            complete == ch * b,
    ;
    assert(b - a >= 1) by (nonlinear_arith)
        requires
            complete - offset == (b - a) * ch,
            complete - offset > 0,
            ch > 0,
    ;
    lemma_fundamental_div_mod_converse(complete - offset, ch, b - a, 0);
}

proof fn lemma_chunk_size(avail: int, frames: int, hop: int, ch: int, ws: int, offset: int, complete: int)
    requires
        ch > 0,
        1 <= frames <= avail,
        frames <= hop,
        hop * ch <= ws,
        avail == (complete - offset) / ch,
        avail * ch <= complete - offset,
    ensures
        ch <= frames * ch <= complete - offset,
        frames * ch <= ws,
{
    assert(ch <= frames * ch <= avail * ch) by (nonlinear_arith)
        requires
            1 <= frames <= avail,
            ch > 0,
    ;
    assert(frames * ch <= hop * ch) by (nonlinear_arith)
        requires
            frames <= hop,
            ch > 0,
    ;
}

proof fn lemma_chunk_total(hlen: int, total: int, frames: int, ch: int, offset: int)
    requires
        ch > 0,
        offset >= 0,
        frames >= 0,
        hlen == total * ch,
        offset % ch == 0,
    ensures
        hlen + frames * ch == (total + frames) * ch,
        (offset + frames * ch) % ch == 0,
        (offset + frames * ch) / ch == offset / ch + frames,
{
    assert(hlen + frames * ch == (total + frames) * ch) by (nonlinear_arith)
        requires
            hlen == total * ch,
    ;
    vstd::arithmetic::div_mod::lemma_fundamental_div_mod(offset, ch);
    assert(offset + frames * ch == (offset / ch + frames) * ch + 0) by (nonlinear_arith)
        requires
            offset == ch * (offset / ch) + 0,
    ;
    lemma_fundamental_div_mod_converse(offset + frames * ch, ch, offset / ch + frames, 0);
}

proof fn lemma_windows_step<T>(h: Seq<T>, ch: int, ws: int, hop: int, start: int, total: int, next: int)
    requires
        ch > 0,
        hop > 0,
        0 <= start <= total,
        next % hop == 0,
        next / hop == total / hop + 1,
        h.len() == next * ch,
    ensures
        windows_between(h, ch, ws, hop, start, next) =~= windows_between(h, ch, ws, hop, start, total).push(
            (recent(h, ws), next),
        ),
{
    let a = windows_between(h, ch, ws, hop, start, next);
    let b = windows_between(h, ch, ws, hop, start, total);
    assert(start / hop <= total / hop) by {
        vstd::arithmetic::div_mod::lemma_div_is_ordered(start, total, hop);
    }
    let last = b.len() as int;
    assert((start / hop + 1 + last) * hop == next) by {
        vstd::arithmetic::div_mod::lemma_fundamental_div_mod(next, hop);
        assert(start / hop + 1 + last == next / hop);
        vstd::arithmetic::mul::lemma_mul_is_commutative(next / hop, hop);
    }
    assert(h.take(next * ch) =~= h);
    assert(a[last] == (recent(h, ws), next));
}

/// Frames in an interleaved stream.
pub open spec fn frames_in<T>(s: Seq<T>, channels: int) -> int {
    s.len() as int / channels
}

/// Consecutive runs of completed hops concatenate.
proof fn lemma_windows_concat<T>(s: Seq<T>, ch: int, ws: int, hop: int, f0: int, f1: int, f2: int)
    requires
        hop > 0,
        0 <= f0 <= f1 <= f2,
    ensures
        windows_between(s, ch, ws, hop, f0, f1) + windows_between(s, ch, ws, hop, f1, f2) =~= windows_between(
            s,
            ch,
            ws,
            hop,
            f0,
            f2,
        ),
{
    vstd::arithmetic::div_mod::lemma_div_is_ordered(f0, f1, hop);
    vstd::arithmetic::div_mod::lemma_div_is_ordered(f1, f2, hop);
    let x = windows_between(s, ch, ws, hop, f0, f1);
    let y = windows_between(s, ch, ws, hop, f1, f2);
    let z = windows_between(s, ch, ws, hop, f0, f2);
    assert forall|i: int| 0 <= i < z.len() implies (x + y)[i] == z[i] by {
        if i >= x.len() {
            assert(f1 / hop + 1 + (i - x.len()) == f0 / hop + 1 + i);
        }
    }
}

/// Every window handed to analysis ends on a hop boundary inside the span
/// pushed, and holds the most recent samples before that end: a full window
/// once enough audio has arrived, everything so far before that.
pub proof fn law_windows_end_on_hops<T>(
    stream: Seq<T>,
    channels: int,
    window: int,
    hop: int,
    from: int,
    to: int,
    i: int,
)
    requires
        channels > 0,
        hop > 0,
        window >= 0,
        0 <= from <= to,
        to * channels <= stream.len(),
        0 <= i < windows_between(stream, channels, window, hop, from, to).len(),
    ensures
        ({
            let w = windows_between(stream, channels, window, hop, from, to)[i];
            let end = w.1 * channels;
            &&& w.1 % hop == 0
            &&& from < w.1 <= to
            &&& w.0.len() == if end <= window { end } else { window }
            &&& w.0 =~= stream.subrange(end - w.0.len(), end)
        }),
{
    let k = from / hop + 1 + i;
    let e = k * hop;
    vstd::arithmetic::div_mod::lemma_div_is_ordered(from, to, hop);
    vstd::arithmetic::div_mod::lemma_fundamental_div_mod(from, hop);
    vstd::arithmetic::div_mod::lemma_fundamental_div_mod(to, hop);
    vstd::arithmetic::div_mod::lemma_mod_bound(from, hop);
    vstd::arithmetic::div_mod::lemma_mod_bound(to, hop);
    vstd::arithmetic::div_mod::lemma_mod_multiples_basic(k, hop);
    assert(k <= to / hop);
    assert(e <= to) by {
        vstd::arithmetic::mul::lemma_mul_inequality(k, to / hop, hop);
        vstd::arithmetic::mul::lemma_mul_is_commutative(to / hop, hop);
    }
    assert(from < e) by {
        vstd::arithmetic::mul::lemma_mul_inequality(from / hop + 1, k, hop);
        assert((from / hop + 1) * hop == hop * (from / hop) + hop) by (nonlinear_arith);
    }
    assert(0 <= e * channels <= to * channels) by (nonlinear_arith)
        requires
            0 <= from < e <= to,
            channels > 0,
    ;
}

/// Splitting the captured audio into packets of whole frames does not
/// change the windows handed to analysis: pushing `a` and then `b` yields
/// exactly the windows, with the same ends, that pushing `a + b` at once
/// yields, and leaves the same stream.
pub proof fn law_packet_split_invariance<T>(
    stream: Seq<T>,
    a: Seq<T>,
    b: Seq<T>,
    channels: int,
    window: int,
    hop: int,
)
    requires
        channels > 0,
        hop > 0,
        stream.len() as int % channels == 0,
        a.len() as int % channels == 0,
    ensures
        stream + whole_frames(a + b, channels) =~= stream + whole_frames(a, channels) + whole_frames(b, channels),
        ({
            let s1 = stream + whole_frames(a, channels);
            let s2 = s1 + whole_frames(b, channels);
            windows_between(s1, channels, window, hop, frames_in(stream, channels), frames_in(s1, channels))
                + windows_between(s2, channels, window, hop, frames_in(s1, channels), frames_in(s2, channels))
                =~~= windows_between(
                s2,
                channels,
                window,
                hop,
                frames_in(stream, channels),
                frames_in(s2, channels),
            )
        }),
{
    let ab = a + b;
    vstd::arithmetic::div_mod::lemma_fundamental_div_mod(a.len() as int, channels);
    vstd::arithmetic::div_mod::lemma_fundamental_div_mod(b.len() as int, channels);
    vstd::arithmetic::div_mod::lemma_fundamental_div_mod(stream.len() as int, channels);
    let qa = a.len() as int / channels;
    let qb = b.len() as int / channels;
    let rb = b.len() as int % channels;
    vstd::arithmetic::div_mod::lemma_mod_bound(b.len() as int, channels);
    assert(ab.len() == (qa + qb) * channels + rb) by (nonlinear_arith)
        requires
            a.len() == channels * qa + 0,
            b.len() == channels * qb + rb,
            ab.len() == a.len() + b.len(),
    ;
    lemma_fundamental_div_mod_converse(ab.len() as int, channels, qa + qb, rb);
    assert(a.len() as int / channels * channels == a.len()) by (nonlinear_arith)
        requires
            a.len() == channels * qa + 0,
            qa == a.len() as int / channels,
    ;
    assert((qa + qb) * channels == a.len() + qb * channels) by (nonlinear_arith)
        requires
            a.len() == channels * qa + 0,
    ;
    assert(whole_frames(ab, channels) =~= a + whole_frames(b, channels));
    assert(whole_frames(a, channels) =~= a);
    let s1 = stream + a;
    let s2 = s1 + whole_frames(b, channels);
    let qs = stream.len() as int / channels;
    assert(qb * channels >= 0) by (nonlinear_arith)
        requires
            qb >= 0,
            channels > 0,
    ;
    assert(s1.len() == (qs + qa) * channels) by (nonlinear_arith)
        requires
            stream.len() == channels * qs + 0,
            a.len() == channels * qa + 0,
            s1.len() == stream.len() + a.len(),
    ;
    lemma_fundamental_div_mod_converse(s1.len() as int, channels, qs + qa, 0);
    assert(s2.len() == (qs + qa + qb) * channels) by (nonlinear_arith)
        requires
            s1.len() == (qs + qa) * channels,
            s2.len() == s1.len() + qb * channels,
    ;
    lemma_fundamental_div_mod_converse(s2.len() as int, channels, qs + qa + qb, 0);
    assert(qs >= 0 && qa >= 0 && qb >= 0) by {
        vstd::arithmetic::div_mod::lemma_div_pos_is_pos(stream.len() as int, channels);
        vstd::arithmetic::div_mod::lemma_div_pos_is_pos(a.len() as int, channels);
        vstd::arithmetic::div_mod::lemma_div_pos_is_pos(b.len() as int, channels);
    }
    lemma_windows_prefix(s1, whole_frames(b, channels), channels, window, hop, qs, qs + qa);
    lemma_windows_concat(s2, channels, window, hop, qs, qs + qa, qs + qa + qb);
}

/// The windows handed to analysis while the packets are pushed in turn
/// into a framer created or cleared before the first of them.
pub open spec fn windows_through<T>(packets: Seq<Seq<T>>, channels: int, window: int, hop: int) -> Seq<
    (Seq<T>, int),
>
    decreases packets.len(),
{
    if packets.len() == 0 {
        Seq::empty()
    } else {
        let before = framed(packets.drop_last(), channels);
        let after = framed(packets, channels);
        windows_through(packets.drop_last(), channels, window, hop) + windows_between(
            after,
            channels,
            window,
            hop,
            frames_in(before, channels),
            frames_in(after, channels),
        )
    }
}

/// However the captured audio is split into packets, the windows handed to
/// analysis are exactly one per completed hop of the captured whole frames,
/// in order: the `k`-th ends after `k * hop` frames and holds the most recent
/// samples up to there (see `law_windows_end_on_hops`).
pub proof fn law_windows_over_pushes<T>(packets: Seq<Seq<T>>, channels: int, window: int, hop: int)
    requires
        channels > 0,
        hop > 0,
    ensures
        windows_through(packets, channels, window, hop) == windows_between(
            framed(packets, channels),
            channels,
            window,
            hop,
            0,
            frames_in(framed(packets, channels), channels),
        ),
    decreases packets.len(),
{
    let all = framed(packets, channels);
    if packets.len() == 0 {
        lemma_fundamental_div_mod_converse(0, channels, 0, 0);
        lemma_fundamental_div_mod_converse(0, hop, 0, 0);
        assert(windows_between(all, channels, window, hop, 0, 0) =~= Seq::empty());
    } else {
        let rest = packets.drop_last();
        let before = framed(rest, channels);
        law_windows_over_pushes(rest, channels, window, hop);
        lemma_framed_len(rest, channels);
        lemma_framed_len(packets, channels);
        let f0 = frames_in(before, channels);
        let f1 = frames_in(all, channels);
        vstd::arithmetic::div_mod::lemma_div_pos_is_pos(before.len() as int, channels);
        assert(all.len() >= before.len());
        vstd::arithmetic::div_mod::lemma_div_is_ordered(before.len() as int, all.len() as int, channels);
        lemma_windows_prefix(
            before,
            whole_frames(packets.last(), channels),
            channels,
            window,
            hop,
            0,
            f0,
        );
        lemma_windows_concat(all, channels, window, hop, 0, f0, f1);
    }
}

/// The framing state: the recent window, the hop and frame counters, and
/// (as ghost state) every sample pushed since the last reset.
struct FrameBuffer<T: Copy> {
    samples: VecDeque<T>,
    channels: usize,
    window_samples: usize,
    hop_frames: usize,
    pending_frames: usize,
    total_frames: u64,
    history: Ghost<Seq<T>>,
}

impl<T: Copy> FrameBuffer<T> {
    /// Every whole-frame sample pushed since creation or the last `clear`.
    spec fn stream(&self) -> Seq<T> {
        self.history@
    }

    /// Interleaved channels per frame.
    spec fn channel_count(&self) -> usize {
        self.channels
    }

    /// Samples in a full analysis window.
    spec fn window_len(&self) -> usize {
        self.window_samples
    }

    /// Frames between the ends of two consecutive windows.
    spec fn hop(&self) -> usize {
        self.hop_frames
    }

    /// Frames in the stream.
    spec fn stream_frames(&self) -> int {
        self.stream().len() as int / (self.channel_count() as int)
    }

    /// Well-formedness: the buffer is the recent window of the stream and
    /// the counters describe the stream.
    spec fn wf(&self) -> bool {
        &&& self.channels > 0
        &&& self.hop_frames > 0
        &&& self.hop_frames * self.channels <= self.window_samples
        &&& self.history@.len() == self.total_frames * self.channels
        &&& self.pending_frames == (self.total_frames as int) % (self.hop_frames as int)
        &&& self.samples@ == recent(self.history@, self.window_samples as int)
    }

    fn new(channels: usize, window_frames: usize, hop_frames: usize) -> (f: Self)
        requires
            channels > 0,
            hop_frames > 0,
            hop_frames <= window_frames,
            window_frames * channels <= usize::MAX,
        ensures
            f.wf(),
            f.stream() == Seq::<T>::empty(),
            f.channel_count() == channels,
            f.window_len() == window_frames * channels,
            f.hop() == hop_frames,
    {
        let window_samples = window_frames * channels;
        assert(hop_frames * channels <= window_frames * channels) by (nonlinear_arith)
            requires
                hop_frames <= window_frames,
        ;
        FrameBuffer {
            samples: VecDeque::with_capacity(window_samples),
            channels,
            window_samples,
            hop_frames,
            pending_frames: 0,
            total_frames: 0,
            history: Ghost(Seq::empty()),
        }
    }

    /// An empty state with the configuration of `other`.
    fn empty_like(other: &Self) -> (f: Self)
        requires
            other.wf(),
        ensures
            f.wf(),
            f.stream() == Seq::<T>::empty(),
            f.channel_count() == other.channel_count(),
            f.window_len() == other.window_len(),
            f.hop() == other.hop(),
    {
        FrameBuffer {
            samples: VecDeque::new(),
            channels: other.channels,
            window_samples: other.window_samples,
            hop_frames: other.hop_frames,
            pending_frames: 0,
            total_frames: 0,
            history: Ghost(Seq::empty()),
        }
    }

    /// Discards the buffered samples and any partial hop, as after a device
    /// switch or a discontinuity.
    fn clear(&mut self)
        requires
            old(self).wf(),
        ensures
            final(self).wf(),
            final(self).stream() == Seq::<T>::empty(),
            final(self).channel_count() == old(self).channel_count(),
            final(self).window_len() == old(self).window_len(),
            final(self).hop() == old(self).hop(),
    {
        self.samples.clear();
        self.pending_frames = 0;
        self.total_frames = 0;
        self.history = Ghost(Seq::empty());
    }

    /// Interleaved channels per frame.
    fn channels(&self) -> (c: usize)
        ensures
            c == self.channel_count(),
    {
        self.channels
    }

    /// Frames pushed since creation or the last `clear`.
    fn frames_pushed(&self) -> (n: u64)
        requires
            self.wf(),
        ensures
            n as int == self.stream_frames(),
    {
        proof {
            lemma_fundamental_div_mod_converse(self.history@.len() as int, self.channels as int, self.total_frames as int, 0);
        }
        self.total_frames
    }

    /// Copies the current window out of the buffer.
    fn current_window(&self) -> (w: Vec<T>)
        ensures
            w@ == self.samples@,
    {
        let n = self.samples.len();
        let mut w: Vec<T> = Vec::with_capacity(n);
        let mut j: usize = 0;
        while j < n
            invariant
                n == self.samples@.len(),
                j <= n,
                w@ == self.samples@.take(j as int),
            decreases n - j,
        {
            w.push(self.samples[j]);
            j = j + 1;
            assert(w@ =~= self.samples@.take(j as int));
        }
        assert(self.samples@.take(n as int) =~= self.samples@);
        w
    }

    /// Appends the whole frames of an interleaved packet and returns, in
    /// order, every window whose hop completed, each paired with the number
    /// of frames pushed since creation or `clear` at its end.
    fn push(&mut self, samples: &[T]) -> (windows: Vec<(Vec<T>, u64)>)
        requires
            old(self).wf(),
            old(self).stream_frames() + samples@.len() as int / (old(self).channel_count() as int)
                <= u64::MAX,
        ensures
            final(self).wf(),
            final(self).channel_count() == old(self).channel_count(),
            final(self).window_len() == old(self).window_len(),
            final(self).hop() == old(self).hop(),
            final(self).stream() == old(self).stream() + whole_frames(
                samples@,
                old(self).channel_count() as int,
            ),
            windows@.len() == windows_between(
                final(self).stream(),
                old(self).channel_count() as int,
                old(self).window_len() as int,
                old(self).hop() as int,
                old(self).stream_frames(),
                final(self).stream_frames(),
            ).len(),
            forall|i: int|
                #![trigger windows@[i]]
                0 <= i < windows@.len() ==> {
                    let expected = windows_between(
                        final(self).stream(),
                        old(self).channel_count() as int,
                        old(self).window_len() as int,
                        old(self).hop() as int,
                        old(self).stream_frames(),
                        final(self).stream_frames(),
                    )[i];
                    &&& windows@[i].0@ == expected.0
                    &&& windows@[i].1 as int == expected.1
                },
    {
        let ch = self.channels;
        let ws = self.window_samples;
        let hop = self.hop_frames;
        let ghost start = self.total_frames as int;
        let ghost h0 = self.history@;
        proof {
            lemma_fundamental_div_mod_converse(h0.len() as int, ch as int, start, 0);
        }
        let len = samples.len();
        proof {
            lemma_whole_frames_bounds(len as int, ch as int);
        }
        let complete = len / ch * ch;
        let mut windows: Vec<(Vec<T>, u64)> = Vec::new();
        let mut offset: usize = 0;
        while offset < complete
            invariant
                ch == self.channels,
                ws == self.window_samples,
                hop == self.hop_frames,
                ch == old(self).channels,
                ws == old(self).window_samples,
                hop == old(self).hop_frames,
                self.wf(),
                len == samples@.len(),
                complete == len / ch * ch,
                complete <= len,
                (complete as int) % (ch as int) == 0,
                offset <= complete,
                (offset as int) % (ch as int) == 0,
                self.total_frames == start + (offset as int) / (ch as int),
                start + (complete as int) / (ch as int) <= u64::MAX,
                h0 == old(self).history@,
                start == old(self).total_frames,
                self.history@ == h0 + samples@.take(offset as int),
                windows@.len() == windows_between(
                    self.history@,
                    ch as int,
                    ws as int,
                    hop as int,
                    start,
                    self.total_frames as int,
                ).len(),
                forall|i: int|
                    #![trigger windows@[i]]
                    0 <= i < windows@.len() ==> {
                        let expected = windows_between(
                            self.history@,
                            ch as int,
                            ws as int,
                            hop as int,
                            start,
                            self.total_frames as int,
                        )[i];
                        &&& windows@[i].0@ == expected.0
                        &&& windows@[i].1 as int == expected.1
                    },
            decreases complete - offset,
        {
            let ghost h = self.history@;
            let ghost total = self.total_frames as int;
            let ghost w_before = windows_between(h, ch as int, ws as int, hop as int, start, total);
            proof {
                lemma_chunk_bounds(offset as int, complete as int, ch as int);
            }
            let avail = (complete - offset) / ch;
            let room = hop - self.pending_frames;
            let frames = if avail < room {
                avail
            } else {
                room
            };
            proof {
                lemma_chunk_size(avail as int, frames as int, hop as int, ch as int, ws as int, offset as int, complete as int);
            }
            let n = frames * ch;
            let end = offset + n;
            let buffered = self.samples.len();
            let space = ws - buffered;
            let remove = if n > space {
                n - space
            } else {
                0
            };
            let ghost buf0 = self.samples@;
            let ghost pending0 = self.pending_frames;
            let ghost total0 = self.total_frames;
            let ghost history0 = self.history@;
            let mut r: usize = 0;
            while r < remove
                invariant
                    r <= remove,
                    remove <= buf0.len(),
                    self.pending_frames == pending0,
                    self.total_frames == total0,
                    self.history@ == history0,
                    self.channels == ch,
                    self.window_samples == ws,
                    self.hop_frames == hop,
                    self.samples@ == buf0.subrange(r as int, buf0.len() as int),
                decreases remove - r,
            {
                self.samples.pop_front();
                r = r + 1;
            }
            let mut j: usize = offset;
            while j < end
                invariant
                    offset <= j <= end,
                    end <= samples@.len(),
                    remove <= buf0.len(),
                    self.pending_frames == pending0,
                    self.total_frames == total0,
                    self.history@ == history0,
                    self.channels == ch,
                    self.window_samples == ws,
                    self.hop_frames == hop,
                    self.samples@ == buf0.subrange(remove as int, buf0.len() as int) + samples@.subrange(
                        offset as int,
                        j as int,
                    ),
                decreases end - j,
            {
                self.samples.push_back(samples[j]);
                j = j + 1;
                assert(self.samples@ =~= buf0.subrange(remove as int, buf0.len() as int) + samples@.subrange(
                    offset as int,
                    j as int,
                ));
            }
            let ghost chunk = samples@.subrange(offset as int, end as int);
            proof {
                lemma_recent_extend(h, chunk, ws as int, remove as int);
                lemma_hop_advance(total, self.pending_frames as int, frames as int, hop as int);
                lemma_windows_prefix(h, chunk, ch as int, ws as int, hop as int, start, total);
                assert(h + chunk =~= h0 + samples@.take(end as int));
                lemma_chunk_total(h.len() as int, total, frames as int, ch as int, offset as int);
            }
            self.history = Ghost(h + chunk);
            offset = end;
            self.pending_frames = self.pending_frames + frames;
            self.total_frames = self.total_frames + frames as u64;
            if self.pending_frames == hop {
                self.pending_frames = 0;
                let w = self.current_window();
                proof {
                    lemma_windows_step(self.history@, ch as int, ws as int, hop as int, start, total, self.total_frames as int);
                }
                windows.push((w, self.total_frames));
            }
        }
        proof {
            assert(samples@.take(complete as int) =~= whole_frames(samples@, ch as int));
            lemma_fundamental_div_mod_converse(self.history@.len() as int, ch as int, self.total_frames as int, 0);
        }
        windows
    }
}


/// Assembles interleaved samples into analysis windows of fixed size that
/// advance by a fixed hop, whatever the packet and poll sizes.
pub struct CaptureFrames<T: Copy> {
    inner: FrameBuffer<T>,
}

impl<T: Copy> CaptureFrames<T> {
    #[verifier::type_invariant]
    spec fn inv(self) -> bool {
        self.inner.wf()
    }

    /// Every whole-frame sample pushed since creation or the last `clear`.
    pub closed spec fn stream(&self) -> Seq<T> {
        self.inner.stream()
    }

    /// Interleaved channels per frame.
    pub closed spec fn channel_count(&self) -> usize {
        self.inner.channel_count()
    }

    /// Samples in a full analysis window.
    pub closed spec fn window_len(&self) -> usize {
        self.inner.window_len()
    }

    /// Frames between the ends of two consecutive windows.
    pub closed spec fn hop(&self) -> usize {
        self.inner.hop()
    }

    /// Frames in the stream.
    pub open spec fn stream_frames(&self) -> int {
        self.stream().len() as int / (self.channel_count() as int)
    }

    pub fn new(channels: usize, window_frames: usize, hop_frames: usize) -> (f: Self)
        requires
            channels > 0,
            hop_frames > 0,
            hop_frames <= window_frames,
            window_frames * channels <= usize::MAX,
        ensures
            f.stream() == Seq::<T>::empty(),
            f.channel_count() == channels,
            f.window_len() == window_frames * channels,
            f.hop() == hop_frames,
            f.channel_count() > 0,
    {
        CaptureFrames { inner: FrameBuffer::new(channels, window_frames, hop_frames) }
    }

    /// Takes the framing state out, leaving an empty state of the same
    /// configuration behind.
    fn take_inner(&mut self) -> (inner: FrameBuffer<T>)
        ensures
            inner.wf(),
            inner == old(self).inner,
            final(self).inner.channel_count() == inner.channel_count(),
            final(self).inner.window_len() == inner.window_len(),
            final(self).inner.hop() == inner.hop(),
    {
        proof {
            use_type_invariant(&*self);
        }
        let mut inner = FrameBuffer::empty_like(&self.inner);
        std::mem::swap(&mut self.inner, &mut inner);
        inner
    }

    /// Discards the buffered samples and any partial hop, as after a device
    /// switch or a discontinuity.
    pub fn clear(&mut self)
        ensures
            final(self).stream() == Seq::<T>::empty(),
            final(self).channel_count() == old(self).channel_count(),
            final(self).window_len() == old(self).window_len(),
            final(self).hop() == old(self).hop(),
    {
        let mut inner = self.take_inner();
        inner.clear();
        self.inner = inner;
    }

    /// Interleaved channels per frame.
    pub fn channels(&self) -> (c: usize)
        ensures
            c == self.channel_count(),
            c > 0,
    {
        proof {
            use_type_invariant(self);
        }
        self.inner.channels()
    }

    /// Frames pushed since creation or the last `clear`.
    pub fn frames_pushed(&self) -> (n: u64)
        ensures
            n as int == self.stream_frames(),
    {
        proof {
            use_type_invariant(self);
        }
        self.inner.frames_pushed()
    }

    /// Appends the whole frames of an interleaved packet and returns, in
    /// order, every window whose hop completed, each paired with the number
    /// of frames pushed since creation or `clear` at its end.
    pub fn push(&mut self, samples: &[T]) -> (windows: Vec<(Vec<T>, u64)>)
        requires
            old(self).stream_frames() + samples@.len() as int / (old(self).channel_count() as int)
                <= u64::MAX,
        ensures
            final(self).channel_count() == old(self).channel_count(),
            final(self).window_len() == old(self).window_len(),
            final(self).hop() == old(self).hop(),
            final(self).stream() == old(self).stream() + whole_frames(
                samples@,
                old(self).channel_count() as int,
            ),
            windows@.len() == windows_between(
                final(self).stream(),
                old(self).channel_count() as int,
                old(self).window_len() as int,
                old(self).hop() as int,
                old(self).stream_frames(),
                final(self).stream_frames(),
            ).len(),
            forall|i: int|
                #![trigger windows@[i]]
                0 <= i < windows@.len() ==> {
                    let expected = windows_between(
                        final(self).stream(),
                        old(self).channel_count() as int,
                        old(self).window_len() as int,
                        old(self).hop() as int,
                        old(self).stream_frames(),
                        final(self).stream_frames(),
                    )[i];
                    &&& windows@[i].0@ == expected.0
                    &&& windows@[i].1 as int == expected.1
                },
    {
        let mut inner = self.take_inner();
        let windows = inner.push(samples);
        self.inner = inner;
        windows
    }
}

} // verus!

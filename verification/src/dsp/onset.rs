use vstd::prelude::*;

verus! {

/// One step of the onset decision. From `warmup` frames still to ignore,
/// `cooldown` frames of refractory pause still to sit out, the pause length
/// `refractory` and whether this frame's spectral flux exceeds the
/// threshold, gives the next warmup, the next cooldown and whether the frame
/// is reported as an onset.
pub open spec fn onset_step(warmup: nat, cooldown: nat, refractory: nat, exceeds: bool) -> (
    nat,
    nat,
    bool,
) {
    if warmup > 0 {
        ((warmup - 1) as nat, cooldown, false)
    } else if cooldown > 0 {
        (0, (cooldown - 1) as nat, false)
    } else if exceeds {
        (0, refractory, true)
    } else {
        (0, 0, false)
    }
}

/// The onset reports of a run of frames, given for each frame whether its
/// flux exceeds the threshold.
pub open spec fn onset_run(warmup: nat, cooldown: nat, refractory: nat, exceeds: Seq<bool>) -> Seq<
    bool,
>
    decreases exceeds.len(),
{
    if exceeds.len() == 0 {
        Seq::empty()
    } else {
        let (w, c, fired) = onset_step(warmup, cooldown, refractory, exceeds[0]);
        seq![fired] + onset_run(w, c, refractory, exceeds.drop_first())
    }
}

/// Integer state of the spectral-flux onset detector: the circular history
/// of past flux values, the warmup still to run, the refractory pause and
/// the band of bins that the flux is summed over. The state stores flux
/// values but never looks inside one; whether a value exceeds the threshold
/// is decided by the caller.
pub struct OnsetState<T> {
    history: Vec<T>,
    hist_pos: usize,
    hist_filled: usize,
    refractory_frames: usize,
    cooldown: usize,
    warmup: usize,
    bin_lo: usize,
    bin_hi: usize,
}

impl<T: Copy> OnsetState<T> {
    /// The history ring: its slot count is fixed, position and fill stay in
    /// range.
    pub closed spec fn wf(&self) -> bool {
        &&& self.history@.len() >= 4
        &&& self.hist_pos < self.history@.len()
        &&& self.hist_filled <= self.history@.len()
    }

    /// Slots of the flux history.
    pub closed spec fn history_len(&self) -> nat {
        self.history@.len()
    }

    /// The whole flux history in storage order.
    pub closed spec fn history(&self) -> Seq<T> {
        self.history@
    }

    /// Slot that the next flux value is written to.
    pub closed spec fn position(&self) -> nat {
        self.hist_pos as nat
    }

    /// Number of slots written so far, at most the slot count.
    pub closed spec fn filled(&self) -> nat {
        self.hist_filled as nat
    }

    /// Frames still ignored while the history fills.
    pub closed spec fn warmup_left(&self) -> nat {
        self.warmup as nat
    }

    /// Frames of refractory pause still to sit out.
    pub closed spec fn cooldown_left(&self) -> nat {
        self.cooldown as nat
    }

    /// Length of the pause after a reported onset.
    pub closed spec fn refractory(&self) -> nat {
        self.refractory_frames as nat
    }

    /// First bin of the flux band.
    pub closed spec fn band_lo(&self) -> nat {
        self.bin_lo as nat
    }

    /// End (exclusive) of the flux band.
    pub closed spec fn band_hi(&self) -> nat {
        self.bin_hi as nat
    }

    /// The band of bins `(lo, hi)` whose magnitude rise makes up the flux.
    pub fn band(&self) -> (r: (usize, usize))
        ensures
            r.0 == self.band_lo(),
            r.1 == self.band_hi(),
    {
        (self.bin_lo, self.bin_hi)
    }

    /// The written part of the history, `history[..filled]`, from which the
    /// caller takes the median for the threshold.
    pub fn recorded(&self) -> (r: Vec<T>)
        requires
            self.wf(),
        ensures
            r@ == self.history().take(self.filled() as int),
    {
        let mut r: Vec<T> = Vec::new();
        let mut i: usize = 0;
        while i < self.hist_filled
            invariant
                self.wf(),
                i <= self.hist_filled,
                r@ == self.history@.take(i as int),
            decreases self.hist_filled - i,
        {
            r.push(self.history[i]);
            i = i + 1;
            assert(r@ =~= self.history@.take(i as int));
        }
        r
    }

    /// Records this frame's flux and decides whether the frame is reported
    /// as an onset: never during warmup, never during the refractory pause,
    /// otherwise exactly when the flux exceeds the threshold, which starts a
    /// new pause.
    pub fn push(&mut self, flux: T, exceeds: bool) -> (fired: bool)
        requires
            old(self).wf(),
        ensures
            final(self).wf(),
            final(self).history() == old(self).history().update(old(self).position() as int, flux),
            final(self).position() == (old(self).position() + 1) % old(self).history_len(),
            final(self).filled() == if old(self).filled() < old(self).history_len() {
                old(self).filled() + 1
            } else {
                old(self).history_len()
            },
            (final(self).warmup_left(), final(self).cooldown_left(), fired) == onset_step(
                old(self).warmup_left(),
                old(self).cooldown_left(),
                old(self).refractory(),
                exceeds,
            ),
            final(self).refractory() == old(self).refractory(),
            final(self).band_lo() == old(self).band_lo(),
            final(self).band_hi() == old(self).band_hi(),
            // During warmup a frame only counts the warmup down.
            old(self).warmup_left() > 0 ==> {
                &&& !fired
                &&& final(self).warmup_left() == old(self).warmup_left() - 1
                &&& final(self).cooldown_left() == old(self).cooldown_left()
            },
            // During the pause every frame counts the pause down, whatever
            // its flux.
            old(self).warmup_left() == 0 && old(self).cooldown_left() > 0 ==> {
                &&& !fired
                &&& final(self).warmup_left() == 0
                &&& final(self).cooldown_left() == old(self).cooldown_left() - 1
            },
            // Afterwards a frame is reported exactly when its flux exceeds
            // the threshold, and a report starts a full pause.
            old(self).warmup_left() == 0 && old(self).cooldown_left() == 0 ==> {
                &&& fired == exceeds
                &&& final(self).warmup_left() == 0
                &&& final(self).cooldown_left() == if exceeds {
                    old(self).refractory()
                } else {
                    0
                }
            },
    {
        let pos = self.hist_pos;
        let len = self.history.len();
        self.history.set(pos, flux);
        self.hist_pos = (pos + 1) % len;
        if self.hist_filled < len {
            self.hist_filled = self.hist_filled + 1;
        }
        if self.warmup > 0 {
            self.warmup = self.warmup - 1;
            return false;
        }
        if self.cooldown > 0 {
            self.cooldown = self.cooldown - 1;
            return false;
        }
        if exceeds {
            self.cooldown = self.refractory_frames;
            return true;
        }
        false
    }
}

impl<T: Copy + Default> OnsetState<T> {
    /// The state for spectra of `num_bins` bins that sums the flux over
    /// `bin_lo..min(bin_hi, num_bins)`, keeps `max(history_len, 4)` flux
    /// values, ignores the first `max(history_len / 4, 4)` frames and pauses
    /// `refractory_frames` frames after each reported onset.
    pub fn new(
        num_bins: usize,
        bin_lo: usize,
        bin_hi: usize,
        history_len: usize,
        refractory_frames: usize,
    ) -> (r: Self)
        ensures
            r.wf(),
            r.history_len() == if history_len > 4 {
                history_len as nat
            } else {
                4
            },
            r.position() == 0,
            r.filled() == 0,
            r.warmup_left() == if history_len / 4 > 4 {
                (history_len / 4) as nat
            } else {
                4
            },
            r.cooldown_left() == 0,
            r.refractory() == refractory_frames,
            r.band_lo() == bin_lo,
            r.band_hi() == if bin_hi < num_bins {
                bin_hi
            } else {
                num_bins
            },
    {
        let slots = if history_len > 4 {
            history_len
        } else {
            4
        };
        let mut history: Vec<T> = Vec::new();
        while history.len() < slots
            invariant
                history@.len() <= slots,
            decreases slots - history@.len(),
        {
            history.push(T::default());
        }
        OnsetState {
            history,
            hist_pos: 0,
            hist_filled: 0,
            refractory_frames,
            cooldown: 0,
            warmup: if history_len / 4 > 4 {
                history_len / 4
            } else {
                4
            },
            bin_lo,
            bin_hi: if bin_hi < num_bins {
                bin_hi
            } else {
                num_bins
            },
        }
    }
}

/// No onset is reported while warmup and pause together still cover the
/// frames: at the start (warmup) and right after an onset (pause), whatever
/// the flux does.
pub proof fn law_silent_while_held(
    warmup: nat,
    cooldown: nat,
    refractory: nat,
    exceeds: Seq<bool>,
)
    requires
        exceeds.len() <= warmup + cooldown,
    ensures
        onset_run(warmup, cooldown, refractory, exceeds).len() == exceeds.len(),
        forall|i: int|
            0 <= i < exceeds.len() ==> !#[trigger] onset_run(warmup, cooldown, refractory, exceeds)[i],
    decreases exceeds.len(),
{
    if exceeds.len() > 0 {
        let (w, c, fired) = onset_step(warmup, cooldown, refractory, exceeds[0]);
        law_silent_while_held(w, c, refractory, exceeds.drop_first());
        let rest = onset_run(w, c, refractory, exceeds.drop_first());
        assert(onset_run(warmup, cooldown, refractory, exceeds) == seq![fired] + rest);
        assert forall|i: int| 0 <= i < exceeds.len() implies !#[trigger] onset_run(
            warmup,
            cooldown,
            refractory,
            exceeds,
        )[i] by {
            if i > 0 {
                assert(onset_run(warmup, cooldown, refractory, exceeds)[i] == rest[i - 1]);
            }
        }
    }
}

/// Two reported onsets are always more than the pause apart: after an
/// onset the next `refractory` frames report nothing.
pub proof fn law_onsets_are_spaced(warmup: nat, cooldown: nat, refractory: nat, exceeds: Seq<bool>)
    requires
        onset_step(warmup, cooldown, refractory, exceeds[0]).2,
        1 <= exceeds.len() <= refractory + 1,
    ensures
        forall|i: int|
            1 <= i < exceeds.len() ==> !#[trigger] onset_run(warmup, cooldown, refractory, exceeds)[i],
{
    let (w, c, fired) = onset_step(warmup, cooldown, refractory, exceeds[0]);
    assert(w == 0 && c == refractory);
    law_silent_while_held(w, c, refractory, exceeds.drop_first());
    let rest = onset_run(w, c, refractory, exceeds.drop_first());
    assert(onset_run(warmup, cooldown, refractory, exceeds) == seq![fired] + rest);
    assert forall|i: int| 1 <= i < exceeds.len() implies !#[trigger] onset_run(
        warmup,
        cooldown,
        refractory,
        exceeds,
    )[i] by {
        assert(onset_run(warmup, cooldown, refractory, exceeds)[i] == rest[i - 1]);
    }
}

proof fn lemma_run_len(warmup: nat, cooldown: nat, refractory: nat, exceeds: Seq<bool>)
    ensures
        onset_run(warmup, cooldown, refractory, exceeds).len() == exceeds.len(),
    decreases exceeds.len(),
{
    if exceeds.len() > 0 {
        let (w, c, fired) = onset_step(warmup, cooldown, refractory, exceeds[0]);
        lemma_run_len(w, c, refractory, exceeds.drop_first());
    }
}

/// The pause counts down on every frame: with no warmup left and `cooldown`
/// frames of pause, a frame that exceeds the threshold `cooldown` frames
/// later is reported, whatever the frames before it did.
pub proof fn law_pause_runs_out(cooldown: nat, refractory: nat, exceeds: Seq<bool>)
    requires
        cooldown < exceeds.len(),
        exceeds[cooldown as int],
    ensures
        onset_run(0, cooldown, refractory, exceeds)[cooldown as int],
    decreases cooldown,
{
    let (w, c, fired) = onset_step(0, cooldown, refractory, exceeds[0]);
    let rest = onset_run(w, c, refractory, exceeds.drop_first());
    lemma_run_len(w, c, refractory, exceeds.drop_first());
    assert(onset_run(0, cooldown, refractory, exceeds) == seq![fired] + rest);
    if cooldown > 0 {
        assert(w == 0 && c == cooldown - 1);
        assert(exceeds.drop_first()[c as int] == exceeds[cooldown as int]);
        law_pause_runs_out(c, refractory, exceeds.drop_first());
        assert(onset_run(0, cooldown, refractory, exceeds)[cooldown as int] == rest[c as int]);
    }
}

/// After a reported onset, the first frame past the pause whose flux exceeds
/// the threshold is reported: a frame `refractory + 1` frames after an onset
/// fires when it exceeds the threshold.
pub proof fn law_fires_after_pause(warmup: nat, cooldown: nat, refractory: nat, exceeds: Seq<bool>)
    requires
        1 <= exceeds.len(),
        onset_step(warmup, cooldown, refractory, exceeds[0]).2,
        refractory + 1 < exceeds.len(),
        exceeds[refractory + 1int],
    ensures
        onset_run(warmup, cooldown, refractory, exceeds)[refractory + 1int],
{
    let (w, c, fired) = onset_step(warmup, cooldown, refractory, exceeds[0]);
    assert(w == 0 && c == refractory);
    let tail = exceeds.drop_first();
    assert(tail[refractory as int] == exceeds[refractory + 1int]);
    law_pause_runs_out(refractory, refractory, tail);
    let rest = onset_run(w, c, refractory, tail);
    lemma_run_len(w, c, refractory, tail);
    assert(onset_run(warmup, cooldown, refractory, exceeds) == seq![fired] + rest);
    assert(onset_run(warmup, cooldown, refractory, exceeds)[refractory + 1int] == rest[
        refractory as int
    ]);
}

/// Once warmup and pause have run out, a frame whose flux exceeds the
/// threshold is reported.
pub proof fn law_idle_state_fires_on_excess(refractory: nat)
    ensures
        onset_step(0, 0, refractory, true) == (0nat, refractory, true),
        onset_step(0, 0, refractory, false) == (0nat, 0nat, false),
{
}

} // verus!

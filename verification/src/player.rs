//! Playback scheduling: the per-frame timing rule, the fail-fast loading
//! step, and the state machine that decides, frame by frame, what the
//! playback loop does next — rendering, looping, and when the audio track
//! is restarted or stopped.

use vstd::prelude::*;

verus! {

use crate::sampler::spec_round_div;
use vstd::arithmetic::mul::lemma_mul_upper_bound;
use vstd::arithmetic::div_mod::{lemma_div_nonincreasing, lemma_fundamental_div_mod};

/// Why playback could not start.
#[derive(Debug, PartialEq, Eq, Structural, Clone, Copy)]
pub enum PlayError {
    /// The discovered sequence holds no frames: nothing to play.
    NoFrames,
    /// The requested rate was zero or yields no representable interval.
    InvalidRate,
}

/// Nanoseconds between frame starts for a playback rate of
/// `fps_num / fps_den` frames per second: `1/fps` seconds, rounded to the
/// nearest nanosecond. Rejects a zero term and an interval beyond `u64`.
pub fn frame_interval_ns(fps_num: u64, fps_den: u64) -> (r: Result<u64, PlayError>)
    ensures
        r is Ok <==> (fps_num >= 1 && fps_den >= 1 && spec_round_div(
            fps_den * 1_000_000_000,
            fps_num as int,
        ) <= u64::MAX),
        r matches Ok(ns) ==> ns == spec_round_div(fps_den * 1_000_000_000, fps_num as int),
        r matches Err(e) ==> e == PlayError::InvalidRate,
{
    if fps_num == 0 || fps_den == 0 {
        return Err(PlayError::InvalidRate);
    }
    proof {
        lemma_mul_upper_bound(fps_den as int, u64::MAX as int, 1_000_000_000, 1_000_000_000);
    }
    let a: u128 = (fps_den as u128) * 1_000_000_000;
    let b: u128 = fps_num as u128;
    let q: u128 = a / b;
    let rem: u128 = a % b;
    proof {
        lemma_div_nonincreasing(a as int, b as int);
    }
    let rounded: u128 = if rem >= b - rem {
        proof {
            lemma_fundamental_div_mod(a as int, b as int);
            assert(q + 1 <= a) by (nonlinear_arith)
                requires
                    b * q + rem == a,
                    b >= 1,
                    rem >= 1,
                    q >= 0,
            ;
        }
        q + 1
    } else {
        q
    };
    if rounded > 0xffff_ffff_ffff_ffff {
        Err(PlayError::InvalidRate)
    } else {
        Ok(rounded as u64)
    }
}

/// Sleep amount, in nanoseconds, owed after rendering one frame: the frame
/// interval minus the time the render took, clamped at zero.
pub fn sleep_duration_ns(interval_ns: u64, elapsed_ns: u64) -> (r: u64)
    ensures
        r == if elapsed_ns >= interval_ns {
            0int
        } else {
            interval_ns - elapsed_ns
        },
{
    if elapsed_ns >= interval_ns {
        0
    } else {
        interval_ns - elapsed_ns
    }
}

/// Collects the loaded contents of every frame, failing fast: the result is
/// the contents in order if every read succeeded, and the index of the
/// first failed read otherwise.
pub fn collect_frame_contents(reads: Vec<Option<String>>) -> (r: Result<Vec<String>, usize>)
    ensures
        r is Ok <==> (forall|i: int| 0 <= i < reads@.len() ==> (#[trigger] reads@[i]) is Some),
        r matches Ok(v) ==> v@.len() == reads@.len() && (forall|i: int|
            0 <= i < reads@.len() ==> ((#[trigger] reads@[i]) matches Some(c) && v@[i] == c)),
        r matches Err(ix) ==> ix < reads@.len() && reads@[ix as int] is None && (forall|i: int|
            0 <= i < ix ==> (#[trigger] reads@[i]) is Some),
{
    let ghost all = reads@;
    let mut rest = reads;
    let mut out: Vec<String> = Vec::new();
    let ghost mut k: int = 0;
    while rest.len() > 0
        invariant
            all == reads@,
            0 <= k <= all.len(),
            all.len() - k == rest@.len(),
            forall|m: int| 0 <= m < rest@.len() ==> #[trigger] rest@[m] == all[k + m],
            out@.len() == k,
            forall|i: int| 0 <= i < k ==> ((#[trigger] all[i]) matches Some(c) && out@[i] == c),
        decreases rest@.len(),
    {
        let ghost before = rest@;
        let x = rest.remove(0);
        proof {
            assert(x == all[k]);
            assert forall|m: int| 0 <= m < rest@.len() implies #[trigger] rest@[m] == all[k + 1
                + m] by {
                assert(rest@[m] == before[m + 1]);
            }
        }
        match x {
            Some(c) => {
                out.push(c);
                proof {
                    k = k + 1;
                }
            },
            None => {
                let ix = out.len();
                return Err(ix);
            },
        }
    }
    Ok(out)
}

/// Where the scheduler stands.
#[derive(Debug, PartialEq, Eq, Structural, Clone, Copy)]
pub enum PlayerPhase {
    /// At a pass boundary: about to play the sequence from its start.
    PassStart,
    /// Inside a pass, `index` frames already rendered.
    Rendering,
    /// Playback is over.
    Finished,
}

/// What the playback loop must do next.
#[derive(Debug, PartialEq, Eq, Structural, Clone, Copy)]
pub enum PlayerAction {
    /// Stop the audio sink and start the track again from offset 0.
    RestartAudio,
    /// Render frame `index`, then sleep out the frame interval.
    Render { index: usize },
    /// Wait the fixed short delay between two passes of a looping run.
    InterLoopDelay,
    /// Stop the audio for good: the run is over.
    StopAudio,
    /// Nothing is left to do.
    Done,
}

/// Immutable playback options.
#[derive(Debug, PartialEq, Eq, Structural, Clone, Copy)]
pub struct PlayerConfig {
    pub n_frames: usize,
    pub looping: bool,
    pub sync: bool,
}

impl PlayerConfig {
    /// A playable configuration: at least one frame, and audio-loop sync
    /// only together with looping.
    pub open spec fn wf(self) -> bool {
        self.n_frames >= 1 && (self.sync ==> self.looping)
    }
}

/// The playback scheduler: drives one pass after another over the frame
/// sequence, restarting audio at pass boundaries when sync is on.
#[derive(Debug, PartialEq, Eq, Structural, Clone, Copy)]
pub struct Player {
    pub config: PlayerConfig,
    pub phase: PlayerPhase,
    pub index: usize,
}

/// The action the scheduler takes in state `p`.
pub open spec fn spec_next_action(p: Player) -> PlayerAction {
    match p.phase {
        PlayerPhase::PassStart => if p.config.sync {
            PlayerAction::RestartAudio
        } else {
            PlayerAction::Render { index: 0 }
        },
        PlayerPhase::Rendering => if p.index < p.config.n_frames {
            PlayerAction::Render { index: p.index }
        } else if p.config.looping {
            PlayerAction::InterLoopDelay
        } else {
            PlayerAction::StopAudio
        },
        PlayerPhase::Finished => PlayerAction::Done,
    }
}

/// The state the scheduler moves to from state `p`.
pub open spec fn spec_next_state(p: Player) -> Player {
    match p.phase {
        PlayerPhase::PassStart => if p.config.sync {
            Player { phase: PlayerPhase::Rendering, index: 0, ..p }
        } else {
            Player { phase: PlayerPhase::Rendering, index: 1, ..p }
        },
        PlayerPhase::Rendering => if p.index < p.config.n_frames {
            Player { index: (p.index + 1) as usize, ..p }
        } else if p.config.looping {
            Player { phase: PlayerPhase::PassStart, index: 0, ..p }
        } else {
            Player { phase: PlayerPhase::Finished, index: 0, ..p }
        },
        PlayerPhase::Finished => p,
    }
}

impl Player {
    /// The index never runs past the sequence, and outside a pass it is 0.
    pub open spec fn wf(self) -> bool {
        &&& self.config.wf()
        &&& match self.phase {
            PlayerPhase::Rendering => self.index <= self.config.n_frames,
            _ => self.index == 0,
        }
    }

    /// Starts a player over a discovered sequence of `n_frames` frames. An
    /// empty sequence is the distinct nothing-to-play failure.
    pub fn new(n_frames: usize, looping: bool, sync: bool) -> (r: Result<Player, PlayError>)
        requires
            sync ==> looping,
        ensures
            r is Ok <==> n_frames >= 1,
            r matches Ok(p) ==> p == (Player {
                config: PlayerConfig { n_frames, looping, sync },
                phase: PlayerPhase::PassStart,
                index: 0,
            }) && p.wf(),
            r matches Err(e) ==> e == PlayError::NoFrames,
    {
        if n_frames == 0 {
            Err(PlayError::NoFrames)
        } else {
            Ok(
                Player {
                    config: PlayerConfig { n_frames, looping, sync },
                    phase: PlayerPhase::PassStart,
                    index: 0,
                },
            )
        }
    }

    /// One scheduling step: returns the next action for the playback loop
    /// and advances the state accordingly.
    pub fn next(&mut self) -> (a: PlayerAction)
        requires
            old(self).wf(),
        ensures
            final(self).wf(),
            a == spec_next_action(*old(self)),
            *final(self) == spec_next_state(*old(self)),
    {
        match self.phase {
            PlayerPhase::PassStart => {
                if self.config.sync {
                    self.phase = PlayerPhase::Rendering;
                    self.index = 0;
                    PlayerAction::RestartAudio
                } else {
                    self.phase = PlayerPhase::Rendering;
                    self.index = 1;
                    PlayerAction::Render { index: 0 }
                }
            },
            PlayerPhase::Rendering => {
                if self.index < self.config.n_frames {
                    let i = self.index;
                    self.index = i + 1;
                    PlayerAction::Render { index: i }
                } else if self.config.looping {
                    self.phase = PlayerPhase::PassStart;
                    self.index = 0;
                    PlayerAction::InterLoopDelay
                } else {
                    self.phase = PlayerPhase::Finished;
                    self.index = 0;
                    PlayerAction::StopAudio
                }
            },
            PlayerPhase::Finished => PlayerAction::Done,
        }
    }
}

/// Without the sync flag the scheduler never restarts the audio track: it
/// plays on independently across loop boundaries.
pub proof fn lemma_no_sync_never_restarts(p: Player)
    requires
        !p.config.sync,
    ensures
        spec_next_action(p) != PlayerAction::RestartAudio,
{
}

/// With sync on, every pass — the first and each loop iteration — begins by
/// restarting the audio track from offset 0.
pub proof fn lemma_sync_restarts_each_pass(p: Player)
    requires
        p.config.sync,
        p.phase == PlayerPhase::PassStart,
    ensures
        spec_next_action(p) == PlayerAction::RestartAudio,
{
}

/// At the end of a pass a looping player waits the inter-loop delay and
/// returns to the pass boundary; a non-looping player stops the audio and
/// finishes.
pub proof fn lemma_pass_end(p: Player)
    requires
        p.wf(),
        p.phase == PlayerPhase::Rendering,
        p.index == p.config.n_frames,
    ensures
        p.config.looping ==> spec_next_action(p) == PlayerAction::InterLoopDelay
            && spec_next_state(p).phase == PlayerPhase::PassStart,
        !p.config.looping ==> spec_next_action(p) == PlayerAction::StopAudio && spec_next_state(
            p,
        ).phase == PlayerPhase::Finished,
{
}

} // verus!

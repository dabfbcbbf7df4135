//! The execution-mode seam of the quantized model: which decode path is
//! selected, what an attached fold backend can serve, and whether a decode
//! step may run.
use vstd::prelude::*;

verus! {

/// Decode execution mode.
///
/// The CPU path is the default and the reference every fold kernel must
/// reproduce. `GpuFold` is the opt-in path; until a fold backend is attached
/// and its routing is wired, selecting it reports why it cannot run rather
/// than silently running the CPU path.
#[derive(Debug, Clone, Copy, PartialEq, Eq, Structural)]
pub enum ExecMode {
    /// CPU engine: the default and the correctness reference.
    Cpu,
    /// Opt-in GPU fold path.
    GpuFold,
}

impl Default for ExecMode {
    fn default() -> (r: Self)
        ensures
            r == ExecMode::Cpu,
    {
        ExecMode::Cpu
    }
}

/// Which folds a [`FoldBackend`] can currently serve. An all-`false` set is
/// valid: the seam exists before any fold is wired.
#[derive(Debug, Clone, Copy, PartialEq, Eq, Structural)]
pub struct FoldCaps {
    /// Weight decode-in-GEMM.
    pub weights: bool,
    /// Folded-KV attention.
    pub kv: bool,
    /// Folded-embedding gather.
    pub embedding: bool,
}

impl Default for FoldCaps {
    fn default() -> (r: Self)
        ensures
            r == (FoldCaps { weights: false, kv: false, embedding: false }),
    {
        FoldCaps { weights: false, kv: false, embedding: false }
    }
}

/// A GPU fold backend: the plug-point a device engine registers through, with
/// a name for diagnostics and the folds it can serve.
pub trait FoldBackend {
    /// Human-readable backend name.
    fn name(&self) -> &str;

    /// Which folds this backend can currently serve.
    fn folds(&self) -> FoldCaps;
}

/// Why a decode step may not run.
#[derive(Debug, Clone, Copy, PartialEq, Eq, Structural)]
pub enum ForwardBlock {
    /// The token is not in the vocabulary.
    TokenOutOfRange {
        /// The offending token.
        token: usize,
        /// Vocabulary size.
        vocab: usize,
    },
    /// `GpuFold` was selected and no fold backend is attached.
    NoFoldBackend,
    /// `GpuFold` was selected; a backend serving `caps` is attached, but fold
    /// routing into the decode path is not wired.
    FoldRoutingUnwired {
        /// What the attached backend reports it can serve.
        caps: FoldCaps,
    },
}

/// Whether a decode step for `token` may run in `mode`, given the vocabulary
/// size and the capabilities of the attached fold backend, if any. The token
/// is checked first; the CPU path never consults the backend, and the GPU
/// fold path never runs yet.
pub fn forward_gate(mode: ExecMode, token: usize, vocab: usize, backend: Option<FoldCaps>) -> (r: Result<
    (),
    ForwardBlock,
>)
    ensures
        r == (if token >= vocab {
            Err(ForwardBlock::TokenOutOfRange { token, vocab })
        } else if mode == ExecMode::Cpu {
            Ok::<(), ForwardBlock>(())
        } else {
            match backend {
                None => Err(ForwardBlock::NoFoldBackend),
                Some(caps) => Err(ForwardBlock::FoldRoutingUnwired { caps }),
            }
        }),
{
    if token >= vocab {
        return Err(ForwardBlock::TokenOutOfRange { token, vocab });
    }
    match mode {
        ExecMode::Cpu => Ok(()),
        ExecMode::GpuFold => match backend {
            None => Err(ForwardBlock::NoFoldBackend),
            Some(caps) => Err(ForwardBlock::FoldRoutingUnwired { caps }),
        },
    }
}

/// What the decode loop does with a sampled token.
#[derive(Debug, Clone, Copy, PartialEq, Eq, Structural)]
pub enum DecodeStep {
    /// Record and stream the token, then run the model on it.
    Emit(usize),
    /// The token ends the turn: it is neither recorded nor streamed.
    Stop,
}

/// The decisions of one generation turn: at most `max_new` tokens, ending early
/// at the first sampled end-of-turn id, which is never output.
pub struct DecodeTurn {
    max_new: usize,
    stop_ids: Vec<usize>,
    generated: Vec<usize>,
    stopped: bool,
}

impl DecodeTurn {
    /// The tokens output so far.
    pub closed spec fn output(&self) -> Seq<usize> {
        self.generated@
    }

    /// The end-of-turn ids.
    pub closed spec fn stops(&self) -> Seq<usize> {
        self.stop_ids@
    }

    /// The budget of new tokens.
    pub closed spec fn budget(&self) -> nat {
        self.max_new as nat
    }

    /// An end-of-turn id was sampled.
    pub closed spec fn ended(&self) -> bool {
        self.stopped
    }

    /// What every turn keeps: within budget, and no end-of-turn id output.
    pub open spec fn inv(&self) -> bool {
        &&& self.output().len() <= self.budget()
        &&& forall|i: int| 0 <= i < self.output().len() ==> !self.stops().contains(#[trigger] self.output()[i])
    }

    /// A new turn with a budget of `max_new` tokens and end-of-turn ids
    /// `stop_ids`.
    pub fn new(max_new: usize, stop_ids: Vec<usize>) -> (r: Self)
        ensures
            r.output() == Seq::<usize>::empty(),
            r.stops() == stop_ids@,
            r.budget() == max_new,
            !r.ended(),
            r.inv(),
    {
        DecodeTurn { max_new, stop_ids, generated: Vec::new(), stopped: false }
    }

    /// Whether another token should be sampled: no end-of-turn id yet and
    /// budget left.
    pub fn wants_token(&self) -> (r: bool)
        ensures
            r == (!self.ended() && self.output().len() < self.budget()),
    {
        !self.stopped && self.generated.len() < self.max_new
    }

    /// Take a sampled token: an end-of-turn id ends the turn and is dropped;
    /// any other token is output.
    pub fn on_sampled(&mut self, token: usize) -> (r: DecodeStep)
        requires
            old(self).inv(),
            !old(self).ended(),
            old(self).output().len() < old(self).budget(),
        ensures
            final(self).inv(),
            final(self).stops() == old(self).stops(),
            final(self).budget() == old(self).budget(),
            old(self).stops().contains(token) ==> r == DecodeStep::Stop && final(self).ended()
                && final(self).output() == old(self).output(),
            !old(self).stops().contains(token) ==> r == DecodeStep::Emit(token) && !final(self).ended()
                && final(self).output() == old(self).output().push(token),
    {
        let mut i: usize = 0;
        while i < self.stop_ids.len()
            invariant
                i <= self.stop_ids@.len(),
                self.stop_ids@ == old(self).stop_ids@,
                self.generated@ == old(self).generated@,
                self.max_new == old(self).max_new,
                self.stopped == old(self).stopped,
                !old(self).ended(),
                old(self).inv(),
                old(self).output().len() < old(self).budget(),
                forall|j: int| 0 <= j < i ==> self.stop_ids@[j] != token,
            decreases self.stop_ids@.len() - i,
        {
            if self.stop_ids[i] == token {
                self.stopped = true;
                proof {
                    assert(old(self).stops()[i as int] == token);
                }
                return DecodeStep::Stop;
            }
            i += 1;
        }
        self.generated.push(token);
        proof {
            assert forall|k: int| 0 <= k < self.output().len() implies !self.stops().contains(#[trigger] self.output()[k]) by {
                if k < old(self).output().len() {
                    assert(self.output()[k] == old(self).output()[k]);
                }
            }
        }
        DecodeStep::Emit(token)
    }

    /// The tokens output so far.
    pub fn generated(&self) -> (r: Vec<usize>)
        ensures
            r@ == self.output(),
    {
        self.generated.clone()
    }
}

/// Where the repetition window over the `len` most recent tokens starts when
/// it holds at most `window` of them.
pub fn window_start(len: usize, window: usize) -> (r: usize)
    ensures
        r == (if len > window {
            len - window
        } else {
            0
        }),
{
    len.saturating_sub(window)
}

/// The sampling seed at stream position `pos`: the turn's seed advanced by
/// the position, wrapping.
pub fn step_seed(seed: u64, pos: u64) -> (r: u64)
    ensures
        r == (seed + pos) % 0x1_0000_0000_0000_0000,
{
    seed.wrapping_add(pos)
}

} // verus!

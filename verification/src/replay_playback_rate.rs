//! The operator's replay playback speed: six discrete rates, 0.25x to 8x.
//! The cockpit divides the wall-time interval between turns by the rate's
//! multiplier when it advances the replay cursor.
use crate::text::str_eq;
use vstd::prelude::*;
use vstd::string::*;

verus! {

/// Schema version.
pub const SCHEMA_VERSION: &'static str = "1.0.0";

/// The six discrete playback rates.
#[derive(Debug, Clone, Copy, PartialEq, Eq, Hash, Structural)]
pub enum PlaybackRate {
    /// 0.25x.
    Quarter,
    /// 0.5x.
    Half,
    /// 1x (default).
    Normal,
    /// 2x.
    Double,
    /// 4x.
    Quadruple,
    /// 8x.
    Octuple,
}

/// The rate state.
#[derive(Debug, Clone, PartialEq, Eq)]
pub struct PlaybackRateState {
    /// Schema version.
    pub schema_version: String,
    /// Current rate.
    pub rate: PlaybackRate,
}

/// Errors.
#[derive(Debug, Clone, Copy, PartialEq, Eq, Structural)]
pub enum PlaybackError {
    /// Schema drift.
    SchemaMismatch,
    /// At an extremity, cannot step further.
    AtBound(PlaybackRate),
}

impl PlaybackRate {
    /// All six rates, slowest first.
    pub const ALL: [PlaybackRate; 6] = [
        PlaybackRate::Quarter,
        PlaybackRate::Half,
        PlaybackRate::Normal,
        PlaybackRate::Double,
        PlaybackRate::Quadruple,
        PlaybackRate::Octuple,
    ];

    /// The rate's place from slowest (0) to fastest (5).
    pub open spec fn rank(self) -> int {
        match self {
            PlaybackRate::Quarter => 0,
            PlaybackRate::Half => 1,
            PlaybackRate::Normal => 2,
            PlaybackRate::Double => 3,
            PlaybackRate::Quadruple => 4,
            PlaybackRate::Octuple => 5,
        }
    }

    /// The next faster rate, if any.
    pub open spec fn faster_spec(self) -> Option<PlaybackRate> {
        match self {
            PlaybackRate::Quarter => Some(PlaybackRate::Half),
            PlaybackRate::Half => Some(PlaybackRate::Normal),
            PlaybackRate::Normal => Some(PlaybackRate::Double),
            PlaybackRate::Double => Some(PlaybackRate::Quadruple),
            PlaybackRate::Quadruple => Some(PlaybackRate::Octuple),
            PlaybackRate::Octuple => None,
        }
    }

    /// The next slower rate, if any.
    pub open spec fn slower_spec(self) -> Option<PlaybackRate> {
        match self {
            PlaybackRate::Quarter => None,
            PlaybackRate::Half => Some(PlaybackRate::Quarter),
            PlaybackRate::Normal => Some(PlaybackRate::Half),
            PlaybackRate::Double => Some(PlaybackRate::Normal),
            PlaybackRate::Quadruple => Some(PlaybackRate::Double),
            PlaybackRate::Octuple => Some(PlaybackRate::Quadruple),
        }
    }

    /// Next faster.
    pub fn faster(self) -> (r: Option<PlaybackRate>)
        ensures
            r == self.faster_spec(),
    {
        match self {
            PlaybackRate::Quarter => Some(PlaybackRate::Half),
            PlaybackRate::Half => Some(PlaybackRate::Normal),
            PlaybackRate::Normal => Some(PlaybackRate::Double),
            PlaybackRate::Double => Some(PlaybackRate::Quadruple),
            PlaybackRate::Quadruple => Some(PlaybackRate::Octuple),
            PlaybackRate::Octuple => None,
        }
    }

    /// Next slower.
    pub fn slower(self) -> (r: Option<PlaybackRate>)
        ensures
            r == self.slower_spec(),
    {
        match self {
            PlaybackRate::Quarter => None,
            PlaybackRate::Half => Some(PlaybackRate::Quarter),
            PlaybackRate::Normal => Some(PlaybackRate::Half),
            PlaybackRate::Double => Some(PlaybackRate::Normal),
            PlaybackRate::Quadruple => Some(PlaybackRate::Double),
            PlaybackRate::Octuple => Some(PlaybackRate::Quadruple),
        }
    }
}

/// The stable kebab-case label of a rate, as it is written in JSON.
pub open spec fn rate_label_spec(rate: PlaybackRate) -> Seq<char> {
    match rate {
        PlaybackRate::Quarter => "quarter"@,
        PlaybackRate::Half => "half"@,
        PlaybackRate::Normal => "normal"@,
        PlaybackRate::Double => "double"@,
        PlaybackRate::Quadruple => "quadruple"@,
        PlaybackRate::Octuple => "octuple"@,
    }
}

/// The human-facing speed label of a rate: its multiplier and `x`.
pub open spec fn speed_label_spec(rate: PlaybackRate) -> Seq<char> {
    match rate {
        PlaybackRate::Quarter => "0.25x"@,
        PlaybackRate::Half => "0.5x"@,
        PlaybackRate::Normal => "1x"@,
        PlaybackRate::Double => "2x"@,
        PlaybackRate::Quadruple => "4x"@,
        PlaybackRate::Octuple => "8x"@,
    }
}

/// The stable kebab-case label of a rate.
pub fn rate_label(rate: PlaybackRate) -> (r: &'static str)
    ensures
        r@ == rate_label_spec(rate),
{
    match rate {
        PlaybackRate::Quarter => "quarter",
        PlaybackRate::Half => "half",
        PlaybackRate::Normal => "normal",
        PlaybackRate::Double => "double",
        PlaybackRate::Quadruple => "quadruple",
        PlaybackRate::Octuple => "octuple",
    }
}

/// The human-facing speed label ("0.25x", "1x", "8x").
pub fn speed_label(rate: PlaybackRate) -> (r: String)
    ensures
        r@ == speed_label_spec(rate),
{
    let s = match rate {
        PlaybackRate::Quarter => "0.25x",
        PlaybackRate::Half => "0.5x",
        PlaybackRate::Normal => "1x",
        PlaybackRate::Double => "2x",
        PlaybackRate::Quadruple => "4x",
        PlaybackRate::Octuple => "8x",
    };
    s.to_owned()
}

impl PlaybackRateState {
    /// The default state: 1x.
    pub fn default_state() -> (r: Self)
        ensures
            r.schema_version@ == SCHEMA_VERSION@,
            r.rate == PlaybackRate::Normal,
    {
        PlaybackRateState { schema_version: SCHEMA_VERSION.to_owned(), rate: PlaybackRate::Normal }
    }

    /// Step faster; an error at the fastest rate.
    pub fn faster(&mut self) -> (r: Result<(), PlaybackError>)
        ensures
            final(self).schema_version == old(self).schema_version,
            match old(self).rate.faster_spec() {
                Some(n) => r == Ok::<(), PlaybackError>(()) && final(self).rate == n,
                None => r == Err::<(), PlaybackError>(PlaybackError::AtBound(old(self).rate))
                    && final(self).rate == old(self).rate,
            },
    {
        match self.rate.faster() {
            Some(r) => {
                self.rate = r;
                Ok(())
            },
            None => Err(PlaybackError::AtBound(self.rate)),
        }
    }

    /// Step slower; an error at the slowest rate.
    pub fn slower(&mut self) -> (r: Result<(), PlaybackError>)
        ensures
            final(self).schema_version == old(self).schema_version,
            match old(self).rate.slower_spec() {
                Some(n) => r == Ok::<(), PlaybackError>(()) && final(self).rate == n,
                None => r == Err::<(), PlaybackError>(PlaybackError::AtBound(old(self).rate))
                    && final(self).rate == old(self).rate,
            },
    {
        match self.rate.slower() {
            Some(r) => {
                self.rate = r;
                Ok(())
            },
            None => Err(PlaybackError::AtBound(self.rate)),
        }
    }

    /// Reset to 1x.
    pub fn reset(&mut self)
        ensures
            final(self).schema_version == old(self).schema_version,
            final(self).rate == PlaybackRate::Normal,
    {
        self.rate = PlaybackRate::Normal;
    }

    /// Validate the schema version.
    pub fn validate(&self) -> (r: Result<(), PlaybackError>)
        ensures
            r == if self.schema_version@ == SCHEMA_VERSION@ {
                Ok::<(), PlaybackError>(())
            } else {
                Err(PlaybackError::SchemaMismatch)
            },
    {
        if !str_eq(self.schema_version.as_str(), SCHEMA_VERSION) {
            return Err(PlaybackError::SchemaMismatch);
        }
        Ok(())
    }
}

/// The outcome of checking one persisted rate state.
#[derive(Debug)]
pub struct CheckOutcome {
    /// The state's rate label.
    pub label: &'static str,
    /// The state's speed label.
    pub speed: String,
    /// The schema-validation result.
    pub result: Result<(), PlaybackError>,
}

/// Check each of `states`: its rate's labels and its validation result.
pub fn check_states(states: &Vec<PlaybackRateState>) -> (r: Vec<CheckOutcome>)
    ensures
        r@.len() == states@.len(),
        forall|i: int|
            #![trigger r@[i]]
            0 <= i < r@.len() ==> {
                &&& r@[i].label@ == rate_label_spec(states@[i].rate)
                &&& r@[i].speed@ == speed_label_spec(states@[i].rate)
                &&& r@[i].result == if states@[i].schema_version@ == SCHEMA_VERSION@ {
                    Ok::<(), PlaybackError>(())
                } else {
                    Err(PlaybackError::SchemaMismatch)
                }
            },
{
    let mut out: Vec<CheckOutcome> = Vec::new();
    let mut i: usize = 0;
    while i < states.len()
        invariant
            i <= states@.len(),
            out@.len() == i,
            forall|j: int|
                #![trigger out@[j]]
                0 <= j < i ==> {
                    &&& out@[j].label@ == rate_label_spec(states@[j].rate)
                    &&& out@[j].speed@ == speed_label_spec(states@[j].rate)
                    &&& out@[j].result == if states@[j].schema_version@ == SCHEMA_VERSION@ {
                        Ok::<(), PlaybackError>(())
                    } else {
                        Err(PlaybackError::SchemaMismatch)
                    }
                },
        decreases states@.len() - i,
    {
        let s = &states[i];
        out.push(
            CheckOutcome { label: rate_label(s.rate), speed: speed_label(s.rate), result: s.validate() },
        );
        i += 1;
    }
    out
}

/// A one-line description of a neighbour rate: its label and speed, or a
/// marker at a bound.
pub open spec fn neighbour_spec(rate: Option<PlaybackRate>) -> Seq<char> {
    match rate {
        Some(r) => rate_label_spec(r) + " ("@ + speed_label_spec(r) + ")"@,
        None => "— (at bound)"@,
    }
}

/// A one-line description of a neighbour rate (or a marker at a bound).
pub fn neighbour(rate: Option<PlaybackRate>) -> (r: String)
    ensures
        r@ == neighbour_spec(rate),
{
    match rate {
        Some(x) => {
            let mut s = rate_label(x).to_owned();
            s.append(" (");
            let sp = speed_label(x);
            s.append(sp.as_str());
            s.append(")");
            s
        },
        None => "— (at bound)".to_owned(),
    }
}

/// The usage text of the playback-rate tool.
pub fn help_text() -> (r: String)
    ensures
        r@ == HELP@,
{
    HELP.to_owned()
}

/// The usage text.
pub const HELP: &'static str = "sovereign-replay-playback-rate — cockpit replay playback speed control\n\n6 discrete rates: 0.25x / 0.5x / 1x (default) / 2x / 4x / 8x. The replay\ncursor advances at wall-interval / multiplier between turns.\n\nUSAGE:\n    sovereign-replay-playback-rate                 print the 6 rates (reference)\n    sovereign-replay-playback-rate --rate NAME     report one rate's properties\n    sovereign-replay-playback-rate --check FILE    validate PlaybackRateState(s) (JSON)\n    sovereign-replay-playback-rate --interval MS   add advance intervals for an MS gap\n    sovereign-replay-playback-rate --help          print this help and exit\n\nNAME is one of: quarter half normal double quadruple octuple.\n--interval MS combines with the reference listing or with --rate NAME.\n--check FILE loads a single PlaybackRateState object or a JSON array of them,\nruns validate() on each, and exits non-zero if any is off-schema.\n";

/// Stepping slower undoes a step faster, and the other way round.
pub proof fn law_faster_slower_inverse(r: PlaybackRate)
    ensures
        r.faster_spec() matches Some(f) ==> f.slower_spec() == Some(r),
        r.slower_spec() matches Some(s) ==> s.faster_spec() == Some(r),
{
}

/// Stepping faster moves exactly one rate up and is refused only at the
/// fastest rate; stepping slower moves one down, refused only at the
/// slowest.
pub proof fn law_steps_are_adjacent(r: PlaybackRate)
    ensures
        r.faster_spec() is None <==> r == PlaybackRate::Octuple,
        r.faster_spec() matches Some(f) ==> f.rank() == r.rank() + 1,
        r.slower_spec() is None <==> r == PlaybackRate::Quarter,
        r.slower_spec() matches Some(s) ==> s.rank() == r.rank() - 1,
{
}

} // verus!

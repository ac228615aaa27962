//! `sensormon.toml`: the configuration's plain values, its defaults, and the
//! rules a loaded configuration must meet. Reading and parsing the file is
//! the application's; what it parsed is checked here.

use vstd::prelude::*;

verus! {

/// Per-band pipelines kept alive by default.
pub fn default_max_bands() -> (r: usize)
    ensures
        r == 8,
{
    8
}

pub fn default_true() -> (r: bool)
    ensures
        r,
{
    true
}

/// Newest chirp examples kept per emitter family by default.
pub fn default_family_examples() -> (r: i64)
    ensures
        r == 50,
{
    50
}

/// Default global cap on stored chirp IQ bytes.
pub fn default_max_bytes() -> (r: i64)
    ensures
        r == 50_000_000,
{
    50_000_000
}

/// Newest chirp examples kept per group by default.
pub fn default_examples() -> (r: i64)
    ensures
        r == 6,
{
    6
}

#[derive(Clone, Copy, Debug, PartialEq, Eq)]
pub enum AirspyGain {
    /// Individual stages, each 0..=15.
    Stages { lna: u8, mix: u8, vga: u8 },
    /// Airspy's combined presets, 0..=21.
    Preset { linearity: Option<u8>, sensitivity: Option<u8> },
}

#[derive(Clone, Copy, Debug, PartialEq, Eq)]
pub enum AutoWord {
    Auto,
}

#[derive(Clone, Copy, Debug, PartialEq, Eq)]
pub enum FileFormat {
    Cu8,
    Cs16,
}

#[derive(Clone, Debug, PartialEq, Eq)]
pub struct MergeConfig {
    pub window_ms: u64,
}

impl Default for MergeConfig {
    fn default() -> (r: Self)
        ensures
            r.window_ms == 2000,
    {
        MergeConfig { window_ms: 2000 }
    }
}

#[derive(Clone, Debug, PartialEq, Eq)]
pub struct HttpConfig {
    pub bind: String,
}

impl Default for HttpConfig {
    fn default() -> (r: Self)
        ensures
            r.bind@ == "0.0.0.0:8433"@,
    {
        HttpConfig { bind: String::from_str("0.0.0.0:8433") }
    }
}

/// What validation reads of one `[[receiver]]` entry: its name, whether it
/// gives `center_hz`, how many `hop_hz` entries it lists, and whether it is
/// an RTL-SDR.
#[derive(Clone, Debug)]
pub struct ReceiverShape {
    pub name: String,
    pub has_center: bool,
    pub hop_count: usize,
    pub is_rtlsdr: bool,
}

impl ReceiverShape {
    /// How many centers the receiver visits: the hop list if it has one,
    /// else its single center, if any.
    pub open spec fn spec_center_count(&self) -> nat {
        if self.hop_count > 0 {
            self.hop_count as nat
        } else if self.has_center {
            1
        } else {
            0
        }
    }

    pub fn center_count(&self) -> (r: usize)
        ensures
            r == self.spec_center_count(),
    {
        if self.hop_count > 0 {
            self.hop_count
        } else if self.has_center {
            1
        } else {
            0
        }
    }
}

/// Why a configuration was refused.
#[derive(Clone, Debug, PartialEq, Eq)]
pub enum ConfigError {
    /// There are no `[[receiver]]` entries.
    NoReceivers,
    /// The named receiver gives neither `center_hz` nor `hop_hz`.
    NoCenter(String),
    /// The named receiver hops but is not an RTL-SDR.
    HoppingUnsupported(String),
}

/// What is wrong with one receiver entry, if anything.
pub open spec fn receiver_problem(r: ReceiverShape) -> Option<ConfigError> {
    if r.spec_center_count() == 0 {
        Some(ConfigError::NoCenter(r.name))
    } else if r.hop_count > 1 && !r.is_rtlsdr {
        Some(ConfigError::HoppingUnsupported(r.name))
    } else {
        None
    }
}

/// Index of the first receiver entry with a problem, or -1.
pub open spec fn first_problem(rs: Seq<ReceiverShape>) -> int
    decreases rs.len(),
{
    if rs.len() == 0 {
        -1
    } else {
        let k = first_problem(rs.drop_last());
        if k >= 0 {
            k
        } else if receiver_problem(rs.last()) is Some {
            rs.len() - 1
        } else {
            -1
        }
    }
}

/// The error a receiver entry's problem is reported with: its kind and the
/// receiver's name.
pub open spec fn same_error(e: ConfigError, p: ConfigError) -> bool {
    match (e, p) {
        (ConfigError::NoReceivers, ConfigError::NoReceivers) => true,
        (ConfigError::NoCenter(a), ConfigError::NoCenter(b)) => a@ == b@,
        (ConfigError::HoppingUnsupported(a), ConfigError::HoppingUnsupported(b)) => a@ == b@,
        _ => false,
    }
}

/// Check the receivers of a loaded configuration: there must be at least
/// one, each must give a center or a hop list, and only RTL-SDRs may hop.
/// The first receiver (in file order) with a problem is reported.
pub fn validate_receivers(rs: &[ReceiverShape]) -> (r: Result<(), ConfigError>)
    ensures
        rs@.len() == 0 ==> r == Err::<(), ConfigError>(ConfigError::NoReceivers),
        rs@.len() > 0 ==> match r {
            Ok(()) => first_problem(rs@) == -1,
            Err(e) => {
                let k = first_problem(rs@);
                &&& k >= 0
                &&& same_error(e, receiver_problem(rs@[k])->0)
            },
        },
{
    if rs.len() == 0 {
        return Err(ConfigError::NoReceivers);
    }
    let mut i: usize = 0;
    while i < rs.len()
        invariant
            i <= rs@.len(),
            first_problem(rs@.take(i as int)) == -1,
        decreases rs@.len() - i,
    {
        let r = &rs[i];
        proof {
            assert(rs@.take(i + 1).drop_last() =~= rs@.take(i as int));
            assert(rs@.take(i + 1).last() == rs@[i as int]);
        }
        if r.center_count() == 0 {
            proof {
                lemma_first_problem_prefix(rs@, i as int);
            }
            return Err(ConfigError::NoCenter(r.name.clone()));
        }
        if r.hop_count > 1 && !r.is_rtlsdr {
            proof {
                lemma_first_problem_prefix(rs@, i as int);
            }
            return Err(ConfigError::HoppingUnsupported(r.name.clone()));
        }
        i = i + 1;
    }
    assert(rs@.take(i as int) =~= rs@);
    Ok(())
}

proof fn lemma_first_problem_prefix(rs: Seq<ReceiverShape>, k: int)
    requires
        0 <= k < rs.len(),
        first_problem(rs.take(k)) == -1,
        receiver_problem(rs[k]) is Some,
    ensures
        first_problem(rs) == k,
    decreases rs.len(),
{
    if k < rs.len() - 1 {
        let p = rs.drop_last();
        assert(p.take(k) =~= rs.take(k));
        assert(p[k] == rs[k]);
        lemma_first_problem_prefix(p, k);
    } else {
        assert(rs.take(k) =~= rs.drop_last());
    }
}

} // verus!

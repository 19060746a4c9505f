//! The command-line configuration, as plain values.
use crate::output::format_of;
use crate::output::parse_format;
use vstd::prelude::*;

verus! {

/// The program's command line.
pub struct Cli {
    pub command: Commands,
}

/// The two subcommands.
pub enum Commands {
    /// Build an index from reference sequences.
    BuildIndex(BuildArgs),
    /// Filter reads against a built index.
    Filter(FilterArgs),
}

/// Options of index building.
pub struct BuildArgs {
    pub fasta: String,
    pub index: String,
    /// Length of the filler between consecutive reference records.
    pub spacer_len: usize,
    /// Checkpoint interval of the rank structure.
    pub sample_rate: usize,
}

/// Options of read filtering.
pub struct FilterArgs {
    pub index: String,
    pub outdir: String,
    /// First-mate reads (FASTQ or FASTA, possibly compressed).
    pub read1: String,
    /// Optional second-mate reads.
    pub read2: Option<String>,
    /// Length of the seeds taken from each read.
    pub seed_size: usize,
    /// Distance between the starts of consecutive seeds.
    pub seed_interval: usize,
    /// Least number of hitting seeds that makes a mate a contaminant.
    pub cutoff: usize,
    /// Output format; inferred from the first-mate file name when absent.
    pub output_format: Option<String>,
}

/// A configuration that cannot be run.
#[derive(Clone, Copy, Debug, PartialEq, Eq, Structural)]
pub enum ConfigError {
    ZeroSampleRate,
    ZeroSeedSize,
    ZeroSeedInterval,
    ZeroCutoff,
    UnsupportedFormat,
}

impl BuildArgs {
    /// Accepts the options unless the checkpoint interval is zero.
    pub fn validate(&self) -> (r: Result<(), ConfigError>)
        ensures
            r is Ok <==> self.sample_rate >= 1,
            r is Err ==> r == Err::<(), ConfigError>(ConfigError::ZeroSampleRate),
    {
        if self.sample_rate == 0 {
            Err(ConfigError::ZeroSampleRate)
        } else {
            Ok(())
        }
    }
}

impl FilterArgs {
    /// Checks the options in order: seed size, seed interval, cutoff, then
    /// the output format when one is given.
    pub fn validate(&self) -> (r: Result<(), ConfigError>)
        ensures
            r is Ok <==> (self.seed_size >= 1 && self.seed_interval >= 1 && self.cutoff >= 1
                && match self.output_format {
                Some(f) => format_of(f@) is Some,
                None => true,
            }),
            self.seed_size == 0 ==> r == Err::<(), ConfigError>(ConfigError::ZeroSeedSize),
            (self.seed_size >= 1 && self.seed_interval == 0) ==> r == Err::<(), ConfigError>(
                ConfigError::ZeroSeedInterval,
            ),
            (self.seed_size >= 1 && self.seed_interval >= 1 && self.cutoff == 0) ==> r == Err::<
                (),
                ConfigError,
            >(ConfigError::ZeroCutoff),
            (self.seed_size >= 1 && self.seed_interval >= 1 && self.cutoff >= 1 && r is Err) ==> r
                == Err::<(), ConfigError>(ConfigError::UnsupportedFormat),
    {
        if self.seed_size == 0 {
            return Err(ConfigError::ZeroSeedSize);
        }
        if self.seed_interval == 0 {
            return Err(ConfigError::ZeroSeedInterval);
        }
        if self.cutoff == 0 {
            return Err(ConfigError::ZeroCutoff);
        }
        match &self.output_format {
            Some(f) => {
                if parse_format(f.as_str()).is_none() {
                    return Err(ConfigError::UnsupportedFormat);
                }
            },
            None => {},
        }
        Ok(())
    }
}

} // verus!

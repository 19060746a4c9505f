use rna_sieve::cli::{BuildArgs, ConfigError, FilterArgs};
use rna_sieve::output::{
    build_output_path, ensure_leading_dot, infer_format_from_filename, parse_format, write_record,
    OutputError, RecordFormat,
};

#[test]
fn leading_dot() {
    assert_eq!(ensure_leading_dot("fastq"), ".fastq");
    assert_eq!(ensure_leading_dot(".fa"), ".fa");
    assert_eq!(ensure_leading_dot(""), ".");
}

#[test]
fn format_from_name() {
    assert_eq!(infer_format_from_filename("reads.fq.gz"), "fastq");
    assert_eq!(infer_format_from_filename("READS.FASTA"), "fasta");
    assert_eq!(infer_format_from_filename("x/reads.fa.gz"), "fasta");
    assert_eq!(infer_format_from_filename("reads.txt"), "fastq");
}

#[test]
fn output_paths() {
    assert_eq!(build_output_path("dir/r1.fq.gz", "clean_", "fasta"), "dir/clean_r1.fq.fasta");
    assert_eq!(build_output_path("r1.fastq", "hit_", ""), "hit_r1.fastq");
    assert_eq!(build_output_path("/data/r1.fastq", "hit_", ".fq"), "/data/hit_r1.fq");
    assert_eq!(build_output_path("a/b/.hidden", "p", "fa"), "a/b/p.hidden.fa");
}

#[test]
fn fastq_record_with_and_without_quality() {
    let mut out = Vec::new();
    write_record("r1", b"ACGT", Some(&b"!!!!"[..]), &mut out, "fastq").unwrap();
    assert_eq!(out, b"@r1\nACGT\n+\n!!!!\n".to_vec());
    let mut out = Vec::new();
    write_record("r2", b"ACG", None, &mut out, "fastq.gz").unwrap();
    assert_eq!(out, b"@r2\nACG\n+\nIII\n".to_vec());
}

#[test]
fn fasta_record() {
    let mut out = b"x".to_vec();
    write_record("r1", b"ACGT", Some(&b"!!!!"[..]), &mut out, "fasta").unwrap();
    assert_eq!(out, b"x>r1\nACGT\n".to_vec());
}

#[test]
fn unsupported_record_format() {
    let mut out = Vec::new();
    assert_eq!(write_record("r1", b"A", None, &mut out, "sam"), Err(OutputError::UnsupportedFormat));
    assert!(out.is_empty());
    assert_eq!(parse_format("fasta.gz"), Some(RecordFormat::Fasta));
    assert_eq!(parse_format("FASTA"), None);
}

fn filter_args(seed_size: usize, seed_interval: usize, cutoff: usize, fmt: Option<&str>) -> FilterArgs {
    FilterArgs {
        index: "idx.bin".to_string(),
        outdir: "out".to_string(),
        read1: "r1.fq".to_string(),
        read2: None,
        seed_size,
        seed_interval,
        cutoff,
        output_format: fmt.map(|s| s.to_string()),
    }
}

#[test]
fn configuration_checks() {
    assert_eq!(filter_args(20, 5, 1, None).validate(), Ok(()));
    assert_eq!(filter_args(20, 5, 1, Some("fasta")).validate(), Ok(()));
    assert_eq!(filter_args(0, 5, 1, None).validate(), Err(ConfigError::ZeroSeedSize));
    assert_eq!(filter_args(20, 0, 1, None).validate(), Err(ConfigError::ZeroSeedInterval));
    assert_eq!(filter_args(20, 5, 0, None).validate(), Err(ConfigError::ZeroCutoff));
    assert_eq!(filter_args(20, 5, 1, Some("bam")).validate(), Err(ConfigError::UnsupportedFormat));
    let b = BuildArgs { fasta: "r.fa".to_string(), index: "i".to_string(), spacer_len: 50, sample_rate: 0 };
    assert_eq!(b.validate(), Err(ConfigError::ZeroSampleRate));
}

#[test]
fn output_path_ignores_trailing_slash() {
    assert_eq!(build_output_path("dir/r.fq/", "m_", "fasta"), "dir/m_r.fasta");
    assert_eq!(build_output_path("/r.fq//", "m_", ""), "/m_r.fq");
    assert_eq!(build_output_path("r.fq/", "m_", "fq"), "m_r.fq");
}

#[test]
fn output_path_ignores_trailing_dot_component() {
    assert_eq!(build_output_path("x/r.fq/.", "m_", "fasta"), "x/m_r.fasta");
    assert_eq!(build_output_path("x/./r.fq/./", "m_", ""), "x/./m_r.fq");
    assert_eq!(build_output_path("x/r..", "m_", "fa"), "x/m_r..fa");
}

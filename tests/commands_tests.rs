use biolens::commands::{
    file_format, format_for_extension, resolve_command, validate, with_visualization, CommandKind,
    FileFormat,
};

#[test]
fn names_and_aliases_resolve() {
    assert_eq!(resolve_command("validate"), Some(CommandKind::Validate));
    assert_eq!(resolve_command("val"), Some(CommandKind::Validate));
    assert_eq!(resolve_command("bam-cov"), Some(CommandKind::BamCoverage));
    assert_eq!(resolve_command("seqcomp"), Some(CommandKind::SeqCompare));
    assert_eq!(resolve_command("unknown"), None);
    for kind in CommandKind::all() {
        let meta = kind.meta();
        assert_eq!(resolve_command(meta.name), Some(kind));
        for alias in meta.aliases {
            assert_eq!(resolve_command(alias), Some(kind));
        }
    }
}

#[test]
fn format_follows_extension_in_any_case() {
    assert_eq!(file_format("reads.SAM"), Some(FileFormat::Sam));
    assert_eq!(file_format("dir.x/genome.Fasta"), Some(FileFormat::Fasta));
    assert_eq!(file_format("a.fq"), Some(FileFormat::Fastq));
    assert_eq!(file_format("a.gff3"), Some(FileFormat::Gff));
    assert_eq!(file_format("noext"), None);
    assert_eq!(file_format(".hidden"), None);
    assert_eq!(file_format("a.txt"), None);
    assert_eq!(format_for_extension("csfasta"), Some(FileFormat::Fasta));
    assert_eq!(format_for_extension("FA"), None);
}

#[test]
fn validate_checks_content_only_for_sam_and_fasta() {
    assert!(validate("x.fa", |f| f == FileFormat::Fasta));
    assert!(validate("x.sam", |f| f == FileFormat::Sam));
    assert!(!validate("x.fa", |_| false));
    let mut called = false;
    assert!(!validate("x.bam", |_| {
        called = true;
        true
    }));
    assert!(!called);
    assert!(!validate("x", |_| true));
}

#[test]
fn visualization_step_runs_on_result() {
    let mut seen = 0;
    with_visualization(|v: &i32| seen = *v, &7);
    assert_eq!(seen, 7);
}

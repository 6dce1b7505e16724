use biolens::fasta::fasta_text_ok;

#[test]
fn test_valid_fasta() {
    let content = ">Sequence1\nACGT\n";
    assert!(fasta_text_ok(content), "Valid FASTA file should pass validation");
}

#[test]
fn test_format_empty_file_fails() {
    assert!(!fasta_text_ok(""), "Empty FASTA file should fail validation");
}

#[test]
fn test_format_header_only_fails() {
    assert!(!fasta_text_ok(">Sequence1"), "FASTA file with only header should fail validation");
}

#[test]
fn test_format_multiple_sequences_valid() {
    let content = ">Sequence1\nACGTAGCT\n>Sequence2\nGTCAAAACGT\n>Sequence3\nTTTGGGCCCAA";
    assert!(
        fasta_text_ok(content),
        "Valid FASTA file with multiple sequences should pass validation"
    );
}

#[test]
fn test_format_no_headers_fails() {
    let content = "ATGCATGCATGCATGCATGC\nGGGCCCAAATTTGGGCCC\nACGTACGTACGTACGT";
    assert!(!fasta_text_ok(content), "FASTA file with no headers should fail validation");
}

#[test]
fn test_format_single_sequence_valid() {
    let content = ">Sequence1\nACGT\n";
    assert!(fasta_text_ok(content), "Valid FASTA file with single sequence should pass validation");
}

#[test]
fn test_format_whitespace_only_fails() {
    assert!(!fasta_text_ok("   "), "FASTA file with only whitespaces should fail validation");
}

#[test]
fn fasta_rejects_two_headers_in_a_row() {
    assert!(!fasta_text_ok(">a\n>b\nACGT\n"));
    assert!(fasta_text_ok("\n  \n>a\r\nAC\n\nGT\n"));
}

use vstd::prelude::*;

verus! {

/// Name, aliases and one-line description of a subcommand.
pub struct CommandMeta {
    pub name: &'static str,
    pub aliases: Vec<&'static str>,
    pub about: &'static str,
}

/// The subcommands of the tool.
#[derive(Clone, Copy, Debug, PartialEq, Eq, Structural)]
pub enum CommandKind {
    Validate,
    BamCoverage,
    SeqCompare,
}

/// Whether two strings hold the same characters.
pub fn str_eq(a: &str, b: &str) -> (r: bool)
    ensures
        r == (a@ == b@),
{
    let n = a.unicode_len();
    if n != b.unicode_len() {
        return false;
    }
    let mut k: usize = 0;
    while k < n
        invariant
            n == a@.len(),
            n == b@.len(),
            k <= n,
            forall|t: int| 0 <= t < k ==> a@[t] == b@[t],
        decreases n - k,
    {
        if a.get_char(k) != b.get_char(k) {
            return false;
        }
        k = k + 1;
    }
    assert(a@ =~= b@);
    true
}

pub open spec fn command_named(name: Seq<char>) -> Option<CommandKind> {
    if name == "validate"@ || name == "val"@ {
        Some(CommandKind::Validate)
    } else if name == "bam-coverage"@ || name == "bamcov"@ || name == "bam-cov"@ {
        Some(CommandKind::BamCoverage)
    } else if name == "seq-compare"@ || name == "seqcomp"@ || name == "seq-comp"@ {
        Some(CommandKind::SeqCompare)
    } else {
        None
    }
}

impl CommandKind {
    /// Every subcommand, in the order the tool lists them.
    pub fn all() -> (r: Vec<CommandKind>)
        ensures
            r@ == seq![CommandKind::Validate, CommandKind::BamCoverage, CommandKind::SeqCompare],
    {
        let mut v: Vec<CommandKind> = Vec::new();
        v.push(CommandKind::Validate);
        v.push(CommandKind::BamCoverage);
        v.push(CommandKind::SeqCompare);
        v
    }

    pub fn meta(&self) -> (r: CommandMeta)
        ensures
            *self == CommandKind::Validate ==> r.name@ == "validate"@ && r.aliases@.len() == 1
                && r.aliases@[0]@ == "val"@,
            *self == CommandKind::BamCoverage ==> r.name@ == "bam-coverage"@ && r.aliases@.len() == 2
                && r.aliases@[0]@ == "bamcov"@ && r.aliases@[1]@ == "bam-cov"@,
            *self == CommandKind::SeqCompare ==> r.name@ == "seq-compare"@ && r.aliases@.len() == 2
                && r.aliases@[0]@ == "seqcomp"@ && r.aliases@[1]@ == "seq-comp"@,
    {
        match self {
            CommandKind::Validate => {
                let mut aliases: Vec<&'static str> = Vec::new();
                aliases.push("val");
                CommandMeta {
                    name: "validate",
                    aliases,
                    about: "Validate if the file is valid (FASTA, FASTQ, SAM/BAM, VCF, GFF, GTF)",
                }
            },
            CommandKind::BamCoverage => {
                let mut aliases: Vec<&'static str> = Vec::new();
                aliases.push("bamcov");
                aliases.push("bam-cov");
                CommandMeta { name: "bam-coverage", aliases, about: "Calculate coverage from BAM files" }
            },
            CommandKind::SeqCompare => {
                let mut aliases: Vec<&'static str> = Vec::new();
                aliases.push("seqcomp");
                aliases.push("seq-comp");
                CommandMeta { name: "seq-compare", aliases, about: "Compare biological sequences" }
            },
        }
    }
}

/// The subcommand with this name or alias.
pub fn resolve_command(name: &str) -> (r: Option<CommandKind>)
    ensures
        r == command_named(name@),
{
    if str_eq(name, "validate") || str_eq(name, "val") {
        Some(CommandKind::Validate)
    } else if str_eq(name, "bam-coverage") || str_eq(name, "bamcov") || str_eq(name, "bam-cov") {
        Some(CommandKind::BamCoverage)
    } else if str_eq(name, "seq-compare") || str_eq(name, "seqcomp") || str_eq(name, "seq-comp") {
        Some(CommandKind::SeqCompare)
    } else {
        None
    }
}

/// Runs the visualization step `f` on a result.
pub fn with_visualization<F, T>(f: F, result: &T)
    where
        F: FnOnce(&T),
    requires
        f.requires((result,)),
    ensures
        f.ensures((result,), ()),
{
    f(result);
}

/// File formats that the tool recognises by extension.
#[derive(Clone, Copy, Debug, PartialEq, Eq, Structural)]
pub enum FileFormat {
    Sam,
    Bam,
    Fasta,
    Fastq,
    Vcf,
    Bed,
    Gff,
    Gtf,
}

/// What `std::path::Path::extension` finds in a path.
pub uninterp spec fn path_extension(path: Seq<char>) -> Option<Seq<char>>;

/// What `str::to_lowercase` makes of a string.
pub uninterp spec fn lower_of(s: Seq<char>) -> Seq<char>;

/// Relies on `std::path::Path::extension`: the text after the last dot of the
/// file name, if the name has one that does not start it. A path built from a
/// `str` is UTF-8, so the conversion back loses nothing.
#[verifier::external_body]
fn extension_of(path: &str) -> (r: Option<String>)
    ensures
        r matches Some(e) ==> path_extension(path@) == Some(e@),
        r is None ==> path_extension(path@) is None,
{
    std::path::Path::new(path).extension().map(|e| e.to_string_lossy().into_owned())
}

/// Relies on `str::to_lowercase`: the result depends on the characters alone.
#[verifier::external_body]
fn lowercase(s: &str) -> (r: String)
    ensures
        r@ == lower_of(s@),
{
    s.to_lowercase()
}

pub open spec fn is_fasta_extension(e: Seq<char>) -> bool {
    e == "fa"@ || e == "fasta"@ || e == "fna"@ || e == "faa"@ || e == "ffn"@ || e == "frn"@ || e
        == "fas"@ || e == "seq"@ || e == "mpfa"@ || e == "csfasta"@ || e == "pfa"@
}

/// The format that a lower-case extension names.
pub open spec fn format_named(e: Seq<char>) -> Option<FileFormat> {
    if e == "sam"@ {
        Some(FileFormat::Sam)
    } else if e == "bam"@ {
        Some(FileFormat::Bam)
    } else if is_fasta_extension(e) {
        Some(FileFormat::Fasta)
    } else if e == "fq"@ || e == "fastq"@ {
        Some(FileFormat::Fastq)
    } else if e == "vcf"@ {
        Some(FileFormat::Vcf)
    } else if e == "bed"@ {
        Some(FileFormat::Bed)
    } else if e == "gff"@ || e == "gff3"@ {
        Some(FileFormat::Gff)
    } else if e == "gtf"@ {
        Some(FileFormat::Gtf)
    } else {
        None
    }
}

pub open spec fn format_of_path(path: Seq<char>) -> Option<FileFormat> {
    match path_extension(path) {
        Some(e) => format_named(lower_of(e)),
        None => None,
    }
}

fn fasta_extension(e: &str) -> (r: bool)
    ensures
        r == is_fasta_extension(e@),
{
    str_eq(e, "fa") || str_eq(e, "fasta") || str_eq(e, "fna") || str_eq(e, "faa") || str_eq(e, "ffn")
        || str_eq(e, "frn") || str_eq(e, "fas") || str_eq(e, "seq") || str_eq(e, "mpfa") || str_eq(
        e,
        "csfasta",
    ) || str_eq(e, "pfa")
}

/// The format that a lower-case extension names, if it is one the tool knows.
pub fn format_for_extension(e: &str) -> (r: Option<FileFormat>)
    ensures
        r == format_named(e@),
{
    if str_eq(e, "sam") {
        Some(FileFormat::Sam)
    } else if str_eq(e, "bam") {
        Some(FileFormat::Bam)
    } else if fasta_extension(e) {
        Some(FileFormat::Fasta)
    } else if str_eq(e, "fq") || str_eq(e, "fastq") {
        Some(FileFormat::Fastq)
    } else if str_eq(e, "vcf") {
        Some(FileFormat::Vcf)
    } else if str_eq(e, "bed") {
        Some(FileFormat::Bed)
    } else if str_eq(e, "gff") || str_eq(e, "gff3") {
        Some(FileFormat::Gff)
    } else if str_eq(e, "gtf") {
        Some(FileFormat::Gtf)
    } else {
        None
    }
}

/// The format of a file, from its extension in any case.
pub fn file_format(file_path: &str) -> (r: Option<FileFormat>)
    ensures
        r == format_of_path(file_path@),
{
    match extension_of(file_path) {
        Some(ext) => {
            let lower = lowercase(ext.as_str());
            format_for_extension(lower.as_str())
        },
        None => None,
    }
}

/// Formats whose content the tool can check.
pub open spec fn has_content_check(f: FileFormat) -> bool {
    f == FileFormat::Sam || f == FileFormat::Fasta
}

/// Validates a file: its extension must name a format whose content the tool
/// checks (SAM or FASTA), and `check` must accept the content. `check` runs
/// only in that case, once.
pub fn validate<F>(file_path: &str, check: F) -> (r: bool)
    where
        F: FnOnce(FileFormat) -> bool,
    requires
        forall|f: FileFormat| has_content_check(f) ==> #[trigger] check.requires((f,)),
    ensures
        match format_of_path(file_path@) {
            Some(f) => if has_content_check(f) {
                check.ensures((f,), r)
            } else {
                !r
            },
            None => !r,
        },
{
    match file_format(file_path) {
        Some(FileFormat::Sam) => check(FileFormat::Sam),
        Some(FileFormat::Fasta) => check(FileFormat::Fasta),
        _ => false,
    }
}

} // verus!

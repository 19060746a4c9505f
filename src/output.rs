//! Output file naming and record formatting for the two read formats.
use vstd::prelude::*;
use vstd::string::StringSliceAdditionalSpecFns;

verus! {

/// `ext` with a `.` in front, unless it starts with one.
pub open spec fn dotted(ext: Seq<char>) -> Seq<char> {
    if ext.len() > 0 && ext[0] == '.' {
        ext
    } else {
        seq!['.'] + ext
    }
}

/// Returns the extension with a leading dot.
pub fn ensure_leading_dot(ext: &str) -> (r: String)
    ensures
        r@ == dotted(ext@),
{
    let n = ext.unicode_len();
    if n > 0 && ext.get_char(0) == '.' {
        String::from_str(ext)
    } else {
        let mut r = String::from_str(".");
        proof {
            reveal_strlit(".");
        }
        r.append(ext);
        r
    }
}

/// `c` equals the lower-case ASCII letter or symbol `lower`, ignoring ASCII case.
pub open spec fn char_eq_ci(c: char, lower: char) -> bool {
    c == lower || ('A' <= c <= 'Z' && c as u32 + 32 == lower as u32)
}

/// `s` ends with `suffix` (given in lower case), ignoring ASCII case.
pub open spec fn ends_with_ci(s: Seq<char>, suffix: Seq<char>) -> bool {
    suffix.len() <= s.len() && forall|i: int|
        0 <= i < suffix.len() ==> char_eq_ci(#[trigger] s[s.len() - suffix.len() + i], suffix[i])
}

fn ends_with_ignore_case(s: &str, suffix: &str) -> (r: bool)
    ensures
        r == ends_with_ci(s@, suffix@),
{
    let n = s.unicode_len();
    let m = suffix.unicode_len();
    if m > n {
        return false;
    }
    let mut i: usize = 0;
    while i < m
        invariant
            n == s@.len(),
            m == suffix@.len(),
            m <= n,
            i <= m,
            forall|j: int| 0 <= j < i ==> char_eq_ci(#[trigger] s@[n - m + j], suffix@[j]),
        decreases m - i,
    {
        let c = s.get_char(n - m + i);
        let t = suffix.get_char(i);
        if !(c == t || ('A' <= c && c <= 'Z' && (c as u32) + 32 == t as u32)) {
            return false;
        }
        i += 1;
    }
    true
}

/// The path names a FASTA file, compressed or not.
pub open spec fn is_fasta_name(p: Seq<char>) -> bool {
    ends_with_ci(p, ".fasta"@) || ends_with_ci(p, ".fasta.gz"@) || ends_with_ci(p, ".fa"@)
        || ends_with_ci(p, ".fa.gz"@)
}

/// The path names a FASTQ file, compressed or not.
pub open spec fn is_fastq_name(p: Seq<char>) -> bool {
    ends_with_ci(p, ".fastq"@) || ends_with_ci(p, ".fastq.gz"@) || ends_with_ci(p, ".fq"@)
        || ends_with_ci(p, ".fq.gz"@)
}

/// The read format that a file name suggests: FASTA for a FASTA extension,
/// FASTQ otherwise.
pub fn infer_format_from_filename(path: &str) -> (r: &'static str)
    ensures
        r@ == (if is_fasta_name(path@) && !is_fastq_name(path@) {
            "fasta"@
        } else {
            "fastq"@
        }),
{
    if ends_with_ignore_case(path, ".fastq") || ends_with_ignore_case(path, ".fastq.gz")
        || ends_with_ignore_case(path, ".fq") || ends_with_ignore_case(path, ".fq.gz") {
        "fastq"
    } else if ends_with_ignore_case(path, ".fasta") || ends_with_ignore_case(path, ".fasta.gz")
        || ends_with_ignore_case(path, ".fa") || ends_with_ignore_case(path, ".fa.gz") {
        "fasta"
    } else {
        "fastq"
    }
}

/// Index of the last `c` in `s`, or -1.
pub open spec fn last_index_of(s: Seq<char>, c: char) -> int
    decreases s.len(),
{
    if s.len() == 0 {
        -1
    } else if s.last() == c {
        s.len() - 1
    } else {
        last_index_of(s.drop_last(), c)
    }
}

/// The directory part of a path, with its trailing `/`; empty when none.
pub open spec fn dir_part(p: Seq<char>) -> Seq<char> {
    p.take(last_index_of(p, '/') + 1)
}

/// The file name: what follows the last `/`.
pub open spec fn file_part(p: Seq<char>) -> Seq<char> {
    p.skip(last_index_of(p, '/') + 1)
}

/// The file name without its last extension; a name whose only dot leads
/// it keeps it.
pub open spec fn stem_part(f: Seq<char>) -> Seq<char> {
    if last_index_of(f, '.') > 0 {
        f.take(last_index_of(f, '.'))
    } else {
        f
    }
}

/// The last character is a `/`, or a `.` that stands alone after a `/`:
/// neither ends a file name.
pub open spec fn ends_in_empty_component(p: Seq<char>) -> bool {
    p.len() > 0 && (p.last() == '/' || (p.last() == '.' && p.len() >= 2 && p[p.len() - 2] == '/'))
}

/// The path without its trailing `/` characters and `/.` components, so that
/// its file name is its last component that names something.
pub open spec fn trim_slashes(p: Seq<char>) -> Seq<char>
    decreases p.len(),
{
    if ends_in_empty_component(p) {
        trim_slashes(p.drop_last())
    } else {
        p
    }
}

/// The output path: in the input's directory, `prefix` before the input's
/// file name, whose extension is replaced by the format's when one is given.
/// Trailing `/` characters and `/.` components of the input are ignored.
pub open spec fn output_path(input: Seq<char>, prefix: Seq<char>, format: Seq<char>) -> Seq<char> {
    let p = trim_slashes(input);
    if format.len() == 0 {
        dir_part(p) + prefix + file_part(p)
    } else {
        dir_part(p) + prefix + stem_part(file_part(p)) + dotted(format)
    }
}

proof fn lemma_last_index_bounds(s: Seq<char>, c: char)
    ensures
        -1 <= last_index_of(s, c) < s.len(),
        last_index_of(s, c) >= 0 ==> s[last_index_of(s, c)] == c,
    decreases s.len(),
{
    if s.len() > 0 && s.last() != c {
        lemma_last_index_bounds(s.drop_last(), c);
    }
}

fn find_last(s: &str, c: char) -> (r: Option<usize>)
    ensures
        match r {
            Some(i) => i as int == last_index_of(s@, c),
            None => last_index_of(s@, c) == -1,
        },
{
    let n = s.unicode_len();
    let mut i: usize = n;
    assert(s@.take(n as int) =~= s@);
    while i > 0
        invariant
            i <= n,
            n == s@.len(),
            last_index_of(s@, c) == last_index_of(s@.take(i as int), c),
        decreases i,
    {
        proof {
            assert(s@.take(i as int).drop_last() =~= s@.take(i - 1));
        }
        if s.get_char(i - 1) == c {
            return Some(i - 1);
        }
        i -= 1;
    }
    None
}

/// Builds an output path from an input path, a prefix and a format.
pub fn build_output_path(input_path: &str, prefix: &str, output_format: &str) -> (r: String)
    ensures
        r@ == output_path(input_path@, prefix@, output_format@),
{
    let full = input_path.unicode_len();
    let mut end: usize = full;
    proof {
        assert(input_path@.take(full as int) =~= input_path@);
    }
    while end > 0 && (input_path.get_char(end - 1) == '/' || (input_path.get_char(end - 1) == '.'
        && end >= 2 && input_path.get_char(end - 2) == '/'))
        invariant
            end <= full,
            full == input_path@.len(),
            trim_slashes(input_path@) == trim_slashes(input_path@.take(end as int)),
        decreases end,
    {
        proof {
            assert(input_path@.take(end as int).drop_last() =~= input_path@.take(end - 1));
        }
        end -= 1;
    }
    let input_path = input_path.substring_char(0, end);
    let n = end;
    proof {
        assert(input_path@.take(n as int) =~= input_path@);
        lemma_last_index_bounds(input_path@, '/');
    }
    let start: usize = match find_last(input_path, '/') {
        Some(i) => i + 1,
        None => 0,
    };
    let dir = input_path.substring_char(0, start);
    let file = input_path.substring_char(start, n);
    let mut r = String::from_str(dir);
    r.append(prefix);
    if output_format.unicode_len() == 0 {
        r.append(file);
    } else {
        let fl = file.unicode_len();
        proof {
            lemma_last_index_bounds(file@, '.');
        }
        let stem = match find_last(file, '.') {
            Some(d) => if d > 0 {
                file.substring_char(0, d)
            } else {
                file
            },
            None => file,
        };
        proof {
            assert(file@.take(fl as int) =~= file@);
        }
        r.append(stem);
        let ext = ensure_leading_dot(output_format);
        r.append(ext.as_str());
    }
    r
}

/// The two record layouts.
#[derive(Clone, Copy, Debug, PartialEq, Eq, Structural)]
pub enum RecordFormat {
    Fastq,
    Fasta,
}

/// Why a record could not be written.
#[derive(Clone, Copy, Debug, PartialEq, Eq, Structural)]
pub enum OutputError {
    /// The format is none of `fastq`, `fastq.gz`, `fasta`, `fasta.gz`.
    UnsupportedFormat,
}

/// The layout that a format name selects, if any.
pub open spec fn format_of(name: Seq<char>) -> Option<RecordFormat> {
    if name == "fastq"@ || name == "fastq.gz"@ {
        Some(RecordFormat::Fastq)
    } else if name == "fasta"@ || name == "fasta.gz"@ {
        Some(RecordFormat::Fasta)
    } else {
        None
    }
}

fn same_str(a: &str, b: &str) -> (r: bool)
    ensures
        r == (a@ == b@),
{
    let n = a.unicode_len();
    if n != b.unicode_len() {
        return false;
    }
    let mut i: usize = 0;
    while i < n
        invariant
            n == a@.len(),
            n == b@.len(),
            i <= n,
            forall|j: int| 0 <= j < i ==> #[trigger] a@[j] == b@[j],
        decreases n - i,
    {
        if a.get_char(i) != b.get_char(i) {
            return false;
        }
        i += 1;
    }
    assert(a@ =~= b@);
    true
}

/// Reads a format name.
pub fn parse_format(name: &str) -> (r: Option<RecordFormat>)
    ensures
        r == format_of(name@),
{
    if same_str(name, "fastq") || same_str(name, "fastq.gz") {
        Some(RecordFormat::Fastq)
    } else if same_str(name, "fasta") || same_str(name, "fasta.gz") {
        Some(RecordFormat::Fasta)
    } else {
        None
    }
}

/// Stand-in quality byte for records that carry none.
pub const FILLER_QUALITY: u8 = 73;

/// The bytes of one record: FASTQ with the quality line (filler when absent,
/// one byte per base), or FASTA.
pub open spec fn record_bytes(id: Seq<u8>, seq: Seq<u8>, qual: Option<Seq<u8>>, f: RecordFormat) -> Seq<u8> {
    match f {
        RecordFormat::Fastq => seq![64u8] + id + seq![10u8] + seq + seq![10u8, 43u8, 10u8] + match qual {
            Some(q) => q,
            None => Seq::new(seq.len(), |i: int| FILLER_QUALITY),
        } + seq![10u8],
        RecordFormat::Fasta => seq![62u8] + id + seq![10u8] + seq + seq![10u8],
    }
}

fn append_bytes(out: &mut Vec<u8>, b: &[u8])
    ensures
        final(out)@ == old(out)@ + b@,
{
    let ghost start = out@;
    let mut i: usize = 0;
    while i < b.len()
        invariant
            i <= b@.len(),
            out@ =~= start + b@.take(i as int),
        decreases b@.len() - i,
    {
        out.push(b[i]);
        i += 1;
    }
    assert(b@.take(b@.len() as int) =~= b@);
}

/// Appends one record to `out` in the named format.
pub fn write_record(
    id: &str,
    seq: &[u8],
    qual: Option<&[u8]>,
    out: &mut Vec<u8>,
    output_format: &str,
) -> (r: Result<(), OutputError>)
    ensures
        format_of(output_format@) is None <==> r == Err::<(), OutputError>(
            OutputError::UnsupportedFormat,
        ),
        format_of(output_format@) is None ==> final(out)@ == old(out)@,
        format_of(output_format@) matches Some(f) ==> final(out)@ == old(out)@ + record_bytes(
            id.spec_bytes(),
            seq@,
            match qual {
                Some(q) => Some(q@),
                None => None,
            },
            f,
        ),
{
    let f = match parse_format(output_format) {
        Some(f) => f,
        None => {
            return Err(OutputError::UnsupportedFormat);
        },
    };
    let ghost start = out@;
    let idb = id.as_bytes_vec();
    match f {
        RecordFormat::Fastq => {
            out.push(64);
            append_bytes(out, idb.as_slice());
            out.push(10);
            append_bytes(out, seq);
            out.push(10);
            out.push(43);
            out.push(10);
            let ghost mid = out@;
            match qual {
                Some(q) => append_bytes(out, q),
                None => {
                    let mut i: usize = 0;
                    while i < seq.len()
                        invariant
                            i <= seq@.len(),
                            out@ =~= mid + Seq::new(i as nat, |j: int| FILLER_QUALITY),
                        decreases seq@.len() - i,
                    {
                        out.push(FILLER_QUALITY);
                        i += 1;
                    }
                },
            }
            out.push(10);
        },
        RecordFormat::Fasta => {
            out.push(62);
            append_bytes(out, idb.as_slice());
            out.push(10);
            append_bytes(out, seq);
            out.push(10);
        },
    }
    assert(out@ =~= start + record_bytes(
        id.spec_bytes(),
        seq@,
        match qual {
            Some(q) => Some(q@),
            None => None,
        },
        f,
    ));
    Ok(())
}

} // verus!

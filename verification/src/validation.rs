//! Structural validation of a font, as a typed report.
use vstd::prelude::*;
use crate::codec::checksum;
use crate::error::Tag;
use crate::font::{tag_key, Font, TableRecord};
use crate::text::{
    bool_string, bool_text, decimal, decimal_text, hex8, hex8_text, lossy_text, push_text,
    utf8_lossy, with_decimal,
};
use crate::write::{pad_len, zeros};

verus! {

/// Whether a validation issue blocks font validity.
#[derive(Debug, Clone, Copy, PartialEq, Eq, Structural)]
pub enum IssueSeverity {
    /// A structural problem that makes the font invalid.
    Error,
    /// A cosmetic or soft issue that does not block validity.
    Warning,
}

/// Coarse classification of a validation issue.
#[derive(Debug, Clone, Copy, PartialEq, Eq, Structural)]
pub enum IssueCategory {
    MissingRequiredTable,
    GlyphCount,
    HmtxCount,
    TableOverlap,
    DirectorySort,
    HeadMagic,
    HeadUnitsPerEm,
    HheaMetrics,
    GlyfLoca,
    TableBounds,
    Checksum,
}

/// A single validation finding.
#[derive(Debug)]
pub struct ValidationIssue {
    pub severity: IssueSeverity,
    pub category: IssueCategory,
    pub message: String,
    pub table: Option<Tag>,
}

/// A typed validation report.
#[derive(Debug)]
pub struct ValidationReport {
    pub issues: Vec<ValidationIssue>,
}

/// An issue as values: severity, category, message and the table's tag.
pub open spec fn issue_view(i: ValidationIssue) -> (IssueSeverity, IssueCategory, Seq<char>, Option<Seq<u8>>) {
    (
        i.severity,
        i.category,
        i.message@,
        match i.table {
            Some(t) => Some(t.0@),
            None => None,
        },
    )
}

pub open spec fn issues_view(s: Seq<ValidationIssue>) -> Seq<
    (IssueSeverity, IssueCategory, Seq<char>, Option<Seq<u8>>),
> {
    Seq::new(s.len(), |k: int| issue_view(s[k]))
}

impl Default for ValidationReport {
    fn default() -> (r: Self)
        ensures
            r.issues@.len() == 0,
    {
        ValidationReport { issues: Vec::new() }
    }
}

impl ValidationIssue {
    fn new(severity: IssueSeverity, category: IssueCategory, message: String) -> (r: Self)
        ensures
            issue_view(r) == (severity, category, message@, None::<Seq<u8>>),
    {
        ValidationIssue { severity, category, message, table: None }
    }

    fn with_table(self, tag: Tag) -> (r: Self)
        ensures
            issue_view(r) == (self.severity, self.category, self.message@, Some(tag.0@)),
    {
        let mut s = self;
        s.table = Some(tag);
        s
    }
}

/// The issues of one severity, in order.
pub open spec fn with_severity(s: Seq<ValidationIssue>, sev: IssueSeverity) -> Seq<ValidationIssue>
    decreases s.len(),
{
    if s.len() == 0 {
        Seq::empty()
    } else {
        let before = with_severity(s.drop_last(), sev);
        if s.last().severity == sev {
            before.push(s.last())
        } else {
            before
        }
    }
}

/// The line `summary` gives an issue.
pub open spec fn issue_line(i: ValidationIssue) -> Seq<char> {
    "  - "@ + (match i.severity {
        IssueSeverity::Error => "error"@,
        IssueSeverity::Warning => "warning"@,
    }) + " "@ + (match i.table {
        Some(t) => "["@ + lossy_text(t.0@) + "] "@,
        None => Seq::empty(),
    }) + i.message@ + "\n"@
}

pub open spec fn issue_lines(s: Seq<ValidationIssue>) -> Seq<char>
    decreases s.len(),
{
    if s.len() == 0 {
        Seq::empty()
    } else {
        issue_lines(s.drop_last()) + issue_line(s.last())
    }
}

fn count_line(n: usize) -> (s: String)
    ensures
        s@ == decimal(n as nat) + " issue(s)\n"@,
{
    let mut s = decimal_text(n as u64);
    push_text(&mut s, " issue(s)\n");
    s
}

impl ValidationReport {
    /// True when there are no error-severity issues.
    pub fn is_valid(&self) -> (r: bool)
        ensures
            r == forall|i: int|
                0 <= i < self.issues@.len() ==> #[trigger] self.issues@[i].severity
                    != IssueSeverity::Error,
    {
        let n = self.issues.len();
        let mut i: usize = 0;
        while i < n
            invariant
                n == self.issues@.len(),
                i <= n,
                forall|j: int| 0 <= j < i ==> #[trigger] self.issues@[j].severity != IssueSeverity::Error,
            decreases n - i,
        {
            if self.issues[i].severity == IssueSeverity::Error {
                return false;
            }
            i += 1;
        }
        true
    }

    fn of_severity(&self, sev: IssueSeverity) -> (r: Vec<&ValidationIssue>)
        ensures
            r@.len() == with_severity(self.issues@, sev).len(),
            forall|i: int| 0 <= i < r@.len() ==> *r@[i] == #[trigger] with_severity(self.issues@, sev)[i],
    {
        let n = self.issues.len();
        let mut out: Vec<&ValidationIssue> = Vec::new();
        let mut i: usize = 0;
        while i < n
            invariant
                n == self.issues@.len(),
                i <= n,
                out@.len() == with_severity(self.issues@.subrange(0, i as int), sev).len(),
                forall|j: int|
                    0 <= j < out@.len() ==> *out@[j] == #[trigger] with_severity(
                        self.issues@.subrange(0, i as int),
                        sev,
                    )[j],
            decreases n - i,
        {
            let ghost sub = self.issues@.subrange(0, i + 1);
            proof {
                assert(sub.drop_last() =~= self.issues@.subrange(0, i as int));
            }
            let ghost old_out = out@;
            if self.issues[i].severity == sev {
                out.push(&self.issues[i]);
            }
            i += 1;
            proof {
                assert forall|j: int| 0 <= j < out@.len() implies *out@[j] == #[trigger] with_severity(
                    sub,
                    sev,
                )[j] by {
                    if j < old_out.len() {
                        assert(out@[j] == old_out[j]);
                    }
                }
            }
        }
        proof {
            assert(self.issues@.subrange(0, n as int) =~= self.issues@);
        }
        out
    }

    /// The error-severity issues, in order.
    pub fn errors(&self) -> (r: Vec<&ValidationIssue>)
        ensures
            r@.len() == with_severity(self.issues@, IssueSeverity::Error).len(),
            forall|i: int|
                0 <= i < r@.len() ==> *r@[i] == #[trigger] with_severity(
                    self.issues@,
                    IssueSeverity::Error,
                )[i],
    {
        self.of_severity(IssueSeverity::Error)
    }

    /// The warning-severity issues, in order.
    pub fn warnings(&self) -> (r: Vec<&ValidationIssue>)
        ensures
            r@.len() == with_severity(self.issues@, IssueSeverity::Warning).len(),
            forall|i: int|
                0 <= i < r@.len() ==> *r@[i] == #[trigger] with_severity(
                    self.issues@,
                    IssueSeverity::Warning,
                )[i],
    {
        self.of_severity(IssueSeverity::Warning)
    }

    /// A human-readable summary: "valid", or the number of issues and a
    /// line for each.
    pub fn summary(&self) -> (s: String)
        ensures
            s@ == if self.issues@.len() == 0 {
                "valid"@
            } else {
                decimal(self.issues@.len()) + " issue(s)\n"@ + issue_lines(self.issues@)
            },
    {
        let n = self.issues.len();
        if n == 0 {
            proof {
                reveal_strlit("valid");
            }
            return "valid".to_owned();
        }
        let mut out = count_line(n);
        let ghost head = out@;
        let mut i: usize = 0;
        while i < n
            invariant
                n == self.issues@.len(),
                i <= n,
                out@ == head + issue_lines(self.issues@.subrange(0, i as int)),
            decreases n - i,
        {
            let issue = &self.issues[i];
            let ghost before = out@;
            push_text(&mut out, "  - ");
            match issue.severity {
                IssueSeverity::Error => push_text(&mut out, "error"),
                IssueSeverity::Warning => push_text(&mut out, "warning"),
            }
            push_text(&mut out, " ");
            match &issue.table {
                Some(t) => {
                    let text = utf8_lossy(&t.0);
                    push_text(&mut out, "[");
                    push_text(&mut out, text.as_str());
                    push_text(&mut out, "] ");
                },
                None => {},
            }
            push_text(&mut out, issue.message.as_str());
            push_text(&mut out, "\n");
            i += 1;
            proof {
                let sub = self.issues@.subrange(0, i as int);
                assert(sub.drop_last() =~= self.issues@.subrange(0, i - 1));
                assert(out@ =~= before + issue_line(self.issues@[i - 1]));
                assert(out@ =~= head + issue_lines(sub));
            }
        }
        proof {
            assert(self.issues@.subrange(0, n as int) =~= self.issues@);
        }
        out
    }
}


type IssueView = (IssueSeverity, IssueCategory, Seq<char>, Option<Seq<u8>>);

/// Some record has this tag.
pub open spec fn has_tag(recs: Seq<TableRecord>, t: Seq<u8>) -> bool {
    exists|i: int| 0 <= i < recs.len() && #[trigger] recs[i].tag.0@ == t
}

/// The issue for a required table the directory lacks, if it does.
pub open spec fn missing_issue(recs: Seq<TableRecord>, t: Seq<u8>) -> Seq<IssueView> {
    if has_tag(recs, t) {
        Seq::empty()
    } else {
        seq![
            (
                IssueSeverity::Error,
                IssueCategory::MissingRequiredTable,
                "Missing required table: "@ + lossy_text(t),
                Some(t),
            ),
        ]
    }
}

/// The required tables `validate_report` looks for, in order.
pub open spec fn required_tags() -> Seq<Seq<u8>> {
    seq![
        seq![0x68u8, 0x65, 0x61, 0x64],
        seq![0x68u8, 0x68, 0x65, 0x61],
        seq![0x6du8, 0x61, 0x78, 0x70],
        seq![0x6eu8, 0x61, 0x6d, 0x65],
        seq![0x63u8, 0x6d, 0x61, 0x70],
        seq![0x4fu8, 0x53, 0x2f, 0x32],
        seq![0x68u8, 0x6d, 0x74, 0x78],
    ]
}

pub open spec fn missing_issues(recs: Seq<TableRecord>, k: int) -> Seq<IssueView>
    decreases k,
{
    if k <= 0 {
        Seq::empty()
    } else {
        missing_issues(recs, k - 1) + missing_issue(recs, required_tags()[k - 1])
    }
}

/// The number of glyphs in `glyf` (0 without it).
pub open spec fn glyf_count(f: Font) -> nat {
    match f.glyf {
        Some(g) => g.glyphs@.len(),
        None => 0,
    }
}

/// The issue when a condition holds.
pub open spec fn issue_if(c: bool, i: IssueView) -> Seq<IssueView> {
    if c {
        seq![i]
    } else {
        Seq::empty()
    }
}

/// The glyph-count issues: `maxp`, `loca` and `hmtx` against `glyf`.
pub open spec fn count_issues(f: Font) -> Seq<IssueView> {
    let gc = glyf_count(f);
    let hc = f.hmtx.h_metrics@.len() + f.hmtx.left_side_bearings@.len();
    issue_if(
        f.maxp.num_glyphs != gc,
        (
            IssueSeverity::Error,
            IssueCategory::GlyphCount,
            "maxp.numGlyphs ("@ + decimal(f.maxp.num_glyphs as nat) + ") != glyf glyph count ("@
                + decimal(gc) + ")"@,
            None,
        ),
    ) + (match f.loca {
        Some(l) => {
            let lc: nat = if l.offsets@.len() == 0 {
                0
            } else {
                (l.offsets@.len() - 1) as nat
            };
            issue_if(
                lc != gc,
                (
                    IssueSeverity::Error,
                    IssueCategory::GlyphCount,
                    "loca entry count ("@ + decimal(lc) + ") != glyf glyph count ("@ + decimal(gc)
                        + ")"@,
                    None,
                ),
            )
        },
        None => Seq::empty(),
    }) + issue_if(
        hc != gc,
        (
            IssueSeverity::Error,
            IssueCategory::HmtxCount,
            "hmtx entry count ("@ + decimal(hc) + ") != glyph count ("@ + decimal(gc) + ")"@,
            None,
        ),
    )
}

/// The overlap issue for records `a` and `b`, if their ranges meet.
pub open spec fn overlap_issue(a: TableRecord, b: TableRecord) -> Seq<IssueView> {
    let a_end = a.offset + a.length;
    let b_end = b.offset + b.length;
    issue_if(
        a.offset < b_end && b.offset < a_end,
        (
            IssueSeverity::Error,
            IssueCategory::TableOverlap,
            "Tables "@ + lossy_text(a.tag.0@) + " and "@ + lossy_text(b.tag.0@) + " overlap ("@
                + decimal(a.offset as nat) + ".."@ + decimal(a_end as nat) + " vs "@ + decimal(
                b.offset as nat,
            ) + ".."@ + decimal(b_end as nat) + ")"@,
            None,
        ),
    )
}

/// The overlap issues of record `i` with records `i + 1 .. j`.
pub open spec fn overlap_row(recs: Seq<TableRecord>, i: int, j: int) -> Seq<IssueView>
    decreases j - i,
{
    if j <= i + 1 {
        Seq::empty()
    } else {
        overlap_row(recs, i, j - 1) + overlap_issue(recs[i], recs[j - 1])
    }
}

/// The overlap issues of the first `i` records with every later one.
pub open spec fn overlap_issues(recs: Seq<TableRecord>, i: int) -> Seq<IssueView>
    decreases i,
{
    if i <= 0 {
        Seq::empty()
    } else {
        overlap_issues(recs, i - 1) + overlap_row(recs, i - 1, recs.len() as int)
    }
}

/// The warnings for neighbours out of tag order among the first `i`
/// records.
pub open spec fn sort_issues(recs: Seq<TableRecord>, i: int) -> Seq<IssueView>
    decreases i,
{
    if i <= 1 {
        Seq::empty()
    } else {
        sort_issues(recs, i - 1) + issue_if(
            tag_key(recs[i - 2].tag.0@) > tag_key(recs[i - 1].tag.0@),
            (
                IssueSeverity::Warning,
                IssueCategory::DirectorySort,
                "Table directory not sorted: "@ + lossy_text(recs[i - 2].tag.0@) + " before "@
                    + lossy_text(recs[i - 1].tag.0@),
                None,
            ),
        )
    }
}

/// The `head`, `hhea` and `glyf`/`loca` issues.
pub open spec fn header_issues(f: Font) -> Seq<IssueView> {
    let recs = f.tables@;
    let has_glyf = has_tag(recs, seq![0x67u8, 0x6c, 0x79, 0x66]);
    let has_loca = has_tag(recs, seq![0x6cu8, 0x6f, 0x63, 0x61]);
    issue_if(
        f.head.magic_number != 0x5F0F3CF5,
        (
            IssueSeverity::Error,
            IssueCategory::HeadMagic,
            "head.magicNumber is 0x"@ + hex8(f.head.magic_number) + ", expected 0x5F0F3CF5"@,
            None,
        ),
    ) + issue_if(
        f.head.units_per_em < 16 || f.head.units_per_em > 16384,
        (
            IssueSeverity::Error,
            IssueCategory::HeadUnitsPerEm,
            "head.unitsPerEm is "@ + decimal(f.head.units_per_em as nat) + ", expected 16..16384"@,
            None,
        ),
    ) + issue_if(
        f.hhea.number_of_hmetrics > f.maxp.num_glyphs,
        (
            IssueSeverity::Error,
            IssueCategory::HheaMetrics,
            "hhea.numberOfHMetrics ("@ + decimal(f.hhea.number_of_hmetrics as nat)
                + ") > maxp.numGlyphs ("@ + decimal(f.maxp.num_glyphs as nat) + ")"@,
            None,
        ),
    ) + issue_if(
        has_glyf != has_loca,
        (
            IssueSeverity::Error,
            IssueCategory::GlyfLoca,
            "glyf and loca must both be present or both absent (glyf="@ + bool_text(has_glyf)
                + ", loca="@ + bool_text(has_loca) + ")"@,
            None,
        ),
    )
}

/// The checksum `validate_report` computes for a table's bytes: of the
/// bytes padded to four, with `head`'s adjustment field zeroed.
pub open spec fn table_sum(tag: Seq<u8>, data: Seq<u8>) -> u32 {
    let padded = data + zeros(pad_len(data.len()));
    if tag == seq![0x68u8, 0x65, 0x61, 0x64] && padded.len() >= 12 {
        checksum(padded.update(8, 0).update(9, 0).update(10, 0).update(11, 0))
    } else {
        checksum(padded)
    }
}

/// The bounds or checksum issue for one record.
pub open spec fn record_issue(rec: TableRecord, buf: Seq<u8>) -> Seq<IssueView> {
    let end = rec.offset + rec.length;
    let t = rec.tag.0@;
    if end > buf.len() {
        seq![
            (
                IssueSeverity::Error,
                IssueCategory::TableBounds,
                "Table "@ + lossy_text(t) + " extends beyond file (offset "@ + decimal(
                    rec.offset as nat,
                ) + ", length "@ + decimal(rec.length as nat) + ", file "@ + decimal(buf.len())
                    + ")"@,
                Some(t),
            ),
        ]
    } else {
        let sum = table_sum(t, buf.subrange(rec.offset as int, end));
        issue_if(
            sum != rec.checksum,
            (
                IssueSeverity::Warning,
                IssueCategory::Checksum,
                if t == seq![0x68u8, 0x65, 0x61, 0x64] {
                    "head checksum mismatch: computed "@ + decimal(sum as nat) + " != recorded "@
                        + decimal(rec.checksum as nat)
                } else {
                    "Table "@ + lossy_text(t) + " checksum mismatch: computed "@ + decimal(
                        sum as nat,
                    ) + " != recorded "@ + decimal(rec.checksum as nat)
                },
                Some(t),
            ),
        )
    }
}

pub open spec fn record_issues(recs: Seq<TableRecord>, buf: Seq<u8>, k: int) -> Seq<IssueView>
    decreases k,
{
    if k <= 0 {
        Seq::empty()
    } else {
        record_issues(recs, buf, k - 1) + record_issue(recs[k - 1], buf)
    }
}

/// Everything `validate_report` finds, in the order it looks.
pub open spec fn report_of(f: Font, buf: Seq<u8>) -> Seq<IssueView> {
    let recs = f.tables@;
    let n = recs.len() as int;
    missing_issues(recs, 7) + count_issues(f) + overlap_issues(recs, n) + sort_issues(recs, n)
        + header_issues(f) + record_issues(recs, buf, n)
}


fn msg_missing(t: &str) -> (s: String)
    ensures
        s@ == "Missing required table: "@ + t@,
{
    let mut s = "Missing required table: ".to_owned();
    push_text(&mut s, t);
    s
}

fn msg_maxp(n: u16, gc: usize) -> (s: String)
    ensures
        s@ == "maxp.numGlyphs ("@ + decimal(n as nat) + ") != glyf glyph count ("@ + decimal(
            gc as nat,
        ) + ")"@,
{
    let mut s = with_decimal("maxp.numGlyphs (", n as u64);
    push_num(&mut s, ") != glyf glyph count (", gc as u64);
    push_text(&mut s, ")");
    s
}

fn msg_loca(lc: usize, gc: usize) -> (s: String)
    ensures
        s@ == "loca entry count ("@ + decimal(lc as nat) + ") != glyf glyph count ("@ + decimal(
            gc as nat,
        ) + ")"@,
{
    let mut s = with_decimal("loca entry count (", lc as u64);
    push_num(&mut s, ") != glyf glyph count (", gc as u64);
    push_text(&mut s, ")");
    s
}

fn msg_hmtx(hc: usize, gc: usize) -> (s: String)
    ensures
        s@ == "hmtx entry count ("@ + decimal(hc as nat) + ") != glyph count ("@ + decimal(gc as nat)
            + ")"@,
{
    let mut s = with_decimal("hmtx entry count (", hc as u64);
    push_num(&mut s, ") != glyph count (", gc as u64);
    push_text(&mut s, ")");
    s
}

fn msg_overlap(a: &str, b: &str, a0: u32, a1: u32, b0: u32, b1: u32) -> (s: String)
    ensures
        s@ == "Tables "@ + a@ + " and "@ + b@ + " overlap ("@ + decimal(a0 as nat) + ".."@ + decimal(
            a1 as nat,
        ) + " vs "@ + decimal(b0 as nat) + ".."@ + decimal(b1 as nat) + ")"@,
{
    let mut s = "Tables ".to_owned();
    push_text(&mut s, a);
    push_text(&mut s, " and ");
    push_text(&mut s, b);
    push_num(&mut s, " overlap (", a0 as u64);
    push_num(&mut s, "..", a1 as u64);
    push_num(&mut s, " vs ", b0 as u64);
    push_num(&mut s, "..", b1 as u64);
    push_text(&mut s, ")");
    s
}

fn msg_sort(a: &str, b: &str) -> (s: String)
    ensures
        s@ == "Table directory not sorted: "@ + a@ + " before "@ + b@,
{
    let mut s = "Table directory not sorted: ".to_owned();
    push_text(&mut s, a);
    push_text(&mut s, " before ");
    push_text(&mut s, b);
    s
}

fn msg_magic(m: u32) -> (s: String)
    ensures
        s@ == "head.magicNumber is 0x"@ + hex8(m) + ", expected 0x5F0F3CF5"@,
{
    let mut s = "head.magicNumber is 0x".to_owned();
    let h = hex8_text(m);
    push_text(&mut s, h.as_str());
    push_text(&mut s, ", expected 0x5F0F3CF5");
    s
}

fn msg_upem(u: u16) -> (s: String)
    ensures
        s@ == "head.unitsPerEm is "@ + decimal(u as nat) + ", expected 16..16384"@,
{
    let mut s = with_decimal("head.unitsPerEm is ", u as u64);
    push_text(&mut s, ", expected 16..16384");
    s
}

fn msg_hhea(a: u16, b: u16) -> (s: String)
    ensures
        s@ == "hhea.numberOfHMetrics ("@ + decimal(a as nat) + ") > maxp.numGlyphs ("@ + decimal(
            b as nat,
        ) + ")"@,
{
    let mut s = with_decimal("hhea.numberOfHMetrics (", a as u64);
    push_num(&mut s, ") > maxp.numGlyphs (", b as u64);
    push_text(&mut s, ")");
    s
}

fn msg_glyf_loca(g: bool, l: bool) -> (s: String)
    ensures
        s@ == "glyf and loca must both be present or both absent (glyf="@ + bool_text(g) + ", loca="@
            + bool_text(l) + ")"@,
{
    let mut s = "glyf and loca must both be present or both absent (glyf=".to_owned();
    let gt = bool_string(g);
    push_text(&mut s, gt.as_str());
    push_text(&mut s, ", loca=");
    let lt = bool_string(l);
    push_text(&mut s, lt.as_str());
    push_text(&mut s, ")");
    s
}

fn msg_bounds(t: &str, off: u32, len: u32, file: usize) -> (s: String)
    ensures
        s@ == "Table "@ + t@ + " extends beyond file (offset "@ + decimal(off as nat) + ", length "@
            + decimal(len as nat) + ", file "@ + decimal(file as nat) + ")"@,
{
    let mut s = "Table ".to_owned();
    push_text(&mut s, t);
    push_num(&mut s, " extends beyond file (offset ", off as u64);
    push_num(&mut s, ", length ", len as u64);
    push_num(&mut s, ", file ", file as u64);
    push_text(&mut s, ")");
    s
}

fn msg_head_sum(c: u32, r: u32) -> (s: String)
    ensures
        s@ == "head checksum mismatch: computed "@ + decimal(c as nat) + " != recorded "@ + decimal(
            r as nat,
        ),
{
    let mut s = with_decimal("head checksum mismatch: computed ", c as u64);
    push_num(&mut s, " != recorded ", r as u64);
    s
}

fn msg_table_sum(t: &str, c: u32, r: u32) -> (s: String)
    ensures
        s@ == "Table "@ + t@ + " checksum mismatch: computed "@ + decimal(c as nat)
            + " != recorded "@ + decimal(r as nat),
{
    let mut s = "Table ".to_owned();
    push_text(&mut s, t);
    push_num(&mut s, " checksum mismatch: computed ", c as u64);
    push_num(&mut s, " != recorded ", r as u64);
    s
}

/// Appends `text` and the decimal digits of `n`.
fn push_num(s: &mut String, text: &str, n: u64)
    ensures
        final(s)@ == old(s)@ + text@ + decimal(n as nat),
{
    push_text(s, text);
    let d = decimal_text(n);
    push_text(s, d.as_str());
}

fn push_issue(out: &mut Vec<ValidationIssue>, i: ValidationIssue)
    ensures
        issues_view(final(out)@) == issues_view(old(out)@).push(issue_view(i)),
{
    out.push(i);
    proof {
        assert(issues_view(out@) =~= issues_view(old(out)@).push(issue_view(i)));
    }
}

fn tag_text(t: &Tag) -> (s: String)
    ensures
        s@ == lossy_text(t.0@),
{
    utf8_lossy(&t.0)
}

fn has_record(tables: &Vec<TableRecord>, tag: &Tag) -> (r: bool)
    ensures
        r == has_tag(tables@, tag.0@),
{
    let n = tables.len();
    let mut i: usize = 0;
    while i < n
        invariant
            n == tables@.len(),
            i <= n,
            forall|j: int| 0 <= j < i ==> #[trigger] tables@[j].tag.0@ != tag.0@,
        decreases n - i,
    {
        if tables[i].tag == *tag {
            return true;
        }
        i += 1;
    }
    false
}

fn required_tag(k: usize) -> (t: Tag)
    requires
        k < 7,
    ensures
        t.0@ == required_tags()[k as int],
{
    let t = if k == 0 {
        Tag([0x68, 0x65, 0x61, 0x64])
    } else if k == 1 {
        Tag([0x68, 0x68, 0x65, 0x61])
    } else if k == 2 {
        Tag([0x6d, 0x61, 0x78, 0x70])
    } else if k == 3 {
        Tag([0x6e, 0x61, 0x6d, 0x65])
    } else if k == 4 {
        Tag([0x63, 0x6d, 0x61, 0x70])
    } else if k == 5 {
        Tag([0x4f, 0x53, 0x2f, 0x32])
    } else {
        Tag([0x68, 0x6d, 0x74, 0x78])
    };
    assert(t.0@ =~= required_tags()[k as int]);
    t
}

fn check_missing(tables: &Vec<TableRecord>, out: &mut Vec<ValidationIssue>)
    ensures
        issues_view(final(out)@) == issues_view(old(out)@) + missing_issues(tables@, 7),
{
    let mut k: usize = 0;
    while k < 7
        invariant
            k <= 7,
            issues_view(out@) == issues_view(old(out)@) + missing_issues(tables@, k as int),
        decreases 7 - k,
    {
        let tag = required_tag(k);
        let ghost before = issues_view(out@);
        if !has_record(tables, &tag) {
            let msg = msg_missing(tag_text(&tag).as_str());
            push_issue(
                out,
                ValidationIssue::new(IssueSeverity::Error, IssueCategory::MissingRequiredTable, msg).with_table(tag),
            );
        }
        k += 1;
        proof {
            assert(issues_view(out@) =~= issues_view(old(out)@) + missing_issues(tables@, k as int));
        }
    }
}

impl Font {
    fn check_counts(&self, out: &mut Vec<ValidationIssue>)
        requires
            self.hmtx.h_metrics@.len() + self.hmtx.left_side_bearings@.len() <= usize::MAX,
        ensures
            issues_view(final(out)@) == issues_view(old(out)@) + count_issues(*self),
    {
        let gc = match &self.glyf {
            Some(g) => g.glyphs.len(),
            None => 0,
        };
        let ghost start = issues_view(out@);
        if self.maxp.num_glyphs as usize != gc {
            push_issue(
                out,
                ValidationIssue::new(
                    IssueSeverity::Error,
                    IssueCategory::GlyphCount,
                    msg_maxp(self.maxp.num_glyphs, gc),
                ),
            );
        }
        let ghost s1 = issues_view(out@);
        match &self.loca {
            Some(l) => {
                let lc = l.offsets.len().saturating_sub(1);
                if lc != gc {
                    push_issue(
                        out,
                        ValidationIssue::new(
                            IssueSeverity::Error,
                            IssueCategory::GlyphCount,
                            msg_loca(lc, gc),
                        ),
                    );
                }
            },
            None => {},
        }
        let ghost s2 = issues_view(out@);
        let hc = self.hmtx.h_metrics.len() + self.hmtx.left_side_bearings.len();
        if hc != gc {
            push_issue(
                out,
                ValidationIssue::new(IssueSeverity::Error, IssueCategory::HmtxCount, msg_hmtx(hc, gc)),
            );
        }
        proof {
            assert(issues_view(out@) =~= issues_view(old(out)@) + count_issues(*self));
        }
    }

    fn check_header(&self, out: &mut Vec<ValidationIssue>)
        ensures
            issues_view(final(out)@) == issues_view(old(out)@) + header_issues(*self),
    {
        if self.head.magic_number != 0x5F0F3CF5 {
            push_issue(
                out,
                ValidationIssue::new(
                    IssueSeverity::Error,
                    IssueCategory::HeadMagic,
                    msg_magic(self.head.magic_number),
                ),
            );
        }
        if self.head.units_per_em < 16 || self.head.units_per_em > 16384 {
            push_issue(
                out,
                ValidationIssue::new(
                    IssueSeverity::Error,
                    IssueCategory::HeadUnitsPerEm,
                    msg_upem(self.head.units_per_em),
                ),
            );
        }
        if self.hhea.number_of_hmetrics > self.maxp.num_glyphs {
            push_issue(
                out,
                ValidationIssue::new(
                    IssueSeverity::Error,
                    IssueCategory::HheaMetrics,
                    msg_hhea(self.hhea.number_of_hmetrics, self.maxp.num_glyphs),
                ),
            );
        }
        let glyf_tag = Tag([0x67, 0x6c, 0x79, 0x66]);
        let loca_tag = Tag([0x6c, 0x6f, 0x63, 0x61]);
        assert(glyf_tag.0@ =~= seq![0x67u8, 0x6c, 0x79, 0x66]);
        assert(loca_tag.0@ =~= seq![0x6cu8, 0x6f, 0x63, 0x61]);
        let has_glyf = has_record(&self.tables, &glyf_tag);
        let has_loca = has_record(&self.tables, &loca_tag);
        if has_glyf != has_loca {
            push_issue(
                out,
                ValidationIssue::new(
                    IssueSeverity::Error,
                    IssueCategory::GlyfLoca,
                    msg_glyf_loca(has_glyf, has_loca),
                ),
            );
        }
        proof {
            assert(issues_view(out@) =~= issues_view(old(out)@) + header_issues(*self));
        }
    }
}


/// Every record's end fits 32 bits.
pub open spec fn ends_fit(recs: Seq<TableRecord>) -> bool {
    forall|i: int| 0 <= i < recs.len() ==> #[trigger] recs[i].offset + recs[i].length <= u32::MAX
}

fn check_overlap_pair(a: &TableRecord, b: &TableRecord, out: &mut Vec<ValidationIssue>)
    requires
        a.offset + a.length <= u32::MAX,
        b.offset + b.length <= u32::MAX,
    ensures
        issues_view(final(out)@) == issues_view(old(out)@) + overlap_issue(*a, *b),
{
    let a_start = a.offset;
    let a_end = a.offset + a.length;
    let b_start = b.offset;
    let b_end = b.offset + b.length;
    if a_start < b_end && b_start < a_end {
        let msg = msg_overlap(
            tag_text(&a.tag).as_str(),
            tag_text(&b.tag).as_str(),
            a_start,
            a_end,
            b_start,
            b_end,
        );
        push_issue(out, ValidationIssue::new(IssueSeverity::Error, IssueCategory::TableOverlap, msg));
    }
    proof {
        assert(issues_view(out@) =~= issues_view(old(out)@) + overlap_issue(*a, *b));
    }
}

fn check_overlaps(tables: &Vec<TableRecord>, out: &mut Vec<ValidationIssue>)
    requires
        ends_fit(tables@),
    ensures
        issues_view(final(out)@) == issues_view(old(out)@) + overlap_issues(
            tables@,
            tables@.len() as int,
        ),
{
    let ghost recs = tables@;
    let n = tables.len();
    let mut i: usize = 0;
    while i < n
        invariant
            recs == tables@,
            n == recs.len(),
            ends_fit(recs),
            i <= n,
            issues_view(out@) == issues_view(old(out)@) + overlap_issues(recs, i as int),
        decreases n - i,
    {
        let ghost row_start = issues_view(out@);
        let mut j: usize = i + 1;
        while j < n
            invariant
                recs == tables@,
                n == recs.len(),
                ends_fit(recs),
                i < n,
                i + 1 <= j <= n,
                issues_view(out@) == row_start + overlap_row(recs, i as int, j as int),
            decreases n - j,
        {
            check_overlap_pair(&tables[i], &tables[j], out);
            j += 1;
            proof {
                assert(issues_view(out@) =~= row_start + overlap_row(recs, i as int, j as int));
            }
        }
        i += 1;
        proof {
            assert(issues_view(out@) =~= issues_view(old(out)@) + overlap_issues(recs, i as int));
        }
    }
}

fn tag_number(t: &Tag) -> (k: u32)
    ensures
        k == tag_key(t.0@),
{
    t.0[0] as u32 * 0x100_0000 + t.0[1] as u32 * 0x1_0000 + t.0[2] as u32 * 0x100 + t.0[3] as u32
}

fn check_sort(tables: &Vec<TableRecord>, out: &mut Vec<ValidationIssue>)
    ensures
        issues_view(final(out)@) == issues_view(old(out)@) + sort_issues(
            tables@,
            tables@.len() as int,
        ),
{
    let ghost recs = tables@;
    let n = tables.len();
    if n < 2 {
        proof {
            assert(issues_view(out@) =~= issues_view(old(out)@) + sort_issues(recs, n as int));
        }
        return;
    }
    let mut i: usize = 1;
    proof {
        assert(issues_view(out@) =~= issues_view(old(out)@) + sort_issues(recs, 1));
    }
    while i < n
        invariant
            recs == tables@,
            n == recs.len(),
            1 <= i <= n,
            issues_view(out@) == issues_view(old(out)@) + sort_issues(recs, i as int),
        decreases n - i,
    {
        let a = &tables[i - 1];
        let b = &tables[i];
        if tag_number(&a.tag) > tag_number(&b.tag) {
            let msg = msg_sort(tag_text(&a.tag).as_str(), tag_text(&b.tag).as_str());
            push_issue(out, ValidationIssue::new(IssueSeverity::Warning, IssueCategory::DirectorySort, msg));
        }
        i += 1;
        proof {
            assert(issues_view(out@) =~= issues_view(old(out)@) + sort_issues(recs, i as int));
        }
    }
}

/// The checksum of a table's bytes as `validate_report` computes it.
fn table_checksum(tag: &Tag, data: &[u8]) -> (c: u32)
    ensures
        c == table_sum(tag.0@, data@),
{
    let mut padded = vstd::slice::slice_to_vec(data);
    let ghost base = padded@;
    while padded.len() % 4 != 0
        invariant
            base.len() <= padded@.len() <= base.len() + 3,
            padded@ == base + zeros((padded@.len() - base.len()) as nat),
            (padded@.len() - base.len()) <= pad_len(base.len()),
            (padded@.len() % 4 != 0) ==> (padded@.len() - base.len()) < pad_len(base.len()),
        decreases 4 - (padded@.len() - base.len()),
    {
        padded.push(0);
        proof {
            assert(padded@ =~= base + zeros((padded@.len() - base.len()) as nat));
        }
    }
    let head = Tag([0x68, 0x65, 0x61, 0x64]);
    assert(head.0@ =~= seq![0x68u8, 0x65, 0x61, 0x64]);
    if *tag == head && padded.len() >= 12 {
        padded.set(8, 0);
        padded.set(9, 0);
        padded.set(10, 0);
        padded.set(11, 0);
    }
    crate::parse::checksum_table(padded.as_slice())
}

fn check_record(rec: &TableRecord, buf: &[u8], out: &mut Vec<ValidationIssue>)
    ensures
        issues_view(final(out)@) == issues_view(old(out)@) + record_issue(*rec, buf@),
{
    let blen = buf.len();
    let end: u64 = rec.offset as u64 + rec.length as u64;
    if end > blen as u64 {
        let msg = msg_bounds(tag_text(&rec.tag).as_str(), rec.offset, rec.length, blen);
        push_issue(
            out,
            ValidationIssue::new(IssueSeverity::Error, IssueCategory::TableBounds, msg).with_table(rec.tag),
        );
    } else {
        let data = vstd::slice::slice_subrange(buf, rec.offset as usize, end as usize);
        let sum = table_checksum(&rec.tag, data);
        if sum != rec.checksum {
            let head = Tag([0x68, 0x65, 0x61, 0x64]);
            assert(head.0@ =~= seq![0x68u8, 0x65, 0x61, 0x64]);
            let msg = if rec.tag == head {
                msg_head_sum(sum, rec.checksum)
            } else {
                msg_table_sum(tag_text(&rec.tag).as_str(), sum, rec.checksum)
            };
            push_issue(
                out,
                ValidationIssue::new(IssueSeverity::Warning, IssueCategory::Checksum, msg).with_table(rec.tag),
            );
        }
    }
    proof {
        assert(issues_view(out@) =~= issues_view(old(out)@) + record_issue(*rec, buf@));
    }
}

fn check_records(tables: &Vec<TableRecord>, buf: &[u8], out: &mut Vec<ValidationIssue>)
    ensures
        issues_view(final(out)@) == issues_view(old(out)@) + record_issues(
            tables@,
            buf@,
            tables@.len() as int,
        ),
{
    let n = tables.len();
    let mut i: usize = 0;
    while i < n
        invariant
            n == tables@.len(),
            i <= n,
            issues_view(out@) == issues_view(old(out)@) + record_issues(tables@, buf@, i as int),
        decreases n - i,
    {
        check_record(&tables[i], buf, out);
        i += 1;
        proof {
            assert(issues_view(out@) =~= issues_view(old(out)@) + record_issues(tables@, buf@, i as int));
        }
    }
}

impl Font {
    /// Runs the structural checks and gives a typed report: required
    /// tables, glyph counts, overlapping tables, directory order, `head`,
    /// `hhea`, `glyf` with `loca`, and each table's bounds and checksum in
    /// the file's bytes.
    pub fn validate_report(&self, buf: &[u8]) -> (r: ValidationReport)
        requires
            ends_fit(self.tables@),
            self.hmtx.h_metrics@.len() + self.hmtx.left_side_bearings@.len() <= usize::MAX,
        ensures
            issues_view(r.issues@) == report_of(*self, buf@),
            has_category(issues_view(r.issues@), IssueCategory::HheaMetrics)
                <==> self.hhea.number_of_hmetrics > self.maxp.num_glyphs,
            has_category(issues_view(r.issues@), IssueCategory::HeadUnitsPerEm)
                <==> (self.head.units_per_em < 16 || self.head.units_per_em > 16384),
            all_classed(issues_view(r.issues@)),
    {
        let mut issues: Vec<ValidationIssue> = Vec::new();
        let ghost s0 = issues_view(issues@);
        check_missing(&self.tables, &mut issues);
        self.check_counts(&mut issues);
        check_overlaps(&self.tables, &mut issues);
        check_sort(&self.tables, &mut issues);
        self.check_header(&mut issues);
        check_records(&self.tables, buf, &mut issues);
        proof {
            assert(s0 =~= Seq::empty());
            assert(issues_view(issues@) =~= report_of(*self, buf@));
            lemma_report_header_checks(*self, buf@);
            lemma_report_classes(*self, buf@);
        }
        ValidationReport { issues }
    }

    /// The messages of `validate_report`, in order.
    pub fn validate(&self, buf: &[u8]) -> (r: Vec<String>)
        requires
            ends_fit(self.tables@),
            self.hmtx.h_metrics@.len() + self.hmtx.left_side_bearings@.len() <= usize::MAX,
        ensures
            r@.len() == report_of(*self, buf@).len(),
            forall|i: int| 0 <= i < r@.len() ==> #[trigger] r@[i]@ == report_of(*self, buf@)[i].2,
    {
        let report = self.validate_report(buf);
        let mut issues = report.issues;
        let ghost v = issues_view(issues@);
        let mut out: Vec<String> = Vec::new();
        let n = issues.len();
        let mut rev: Vec<String> = Vec::new();
        let mut k: usize = n;
        while k > 0
            invariant
                k <= n,
                issues@.len() == k,
                n == v.len(),
                forall|j: int| 0 <= j < k ==> #[trigger] issue_view(issues@[j]) == v[j],
                rev@.len() == n - k,
                forall|j: int| 0 <= j < n - k ==> #[trigger] rev@[j]@ == v[n - 1 - j].2,
            decreases k,
        {
            let ghost before = issues@;
            assert(issue_view(issues@[k - 1]) == v[k - 1]);
            let issue = issues.pop().unwrap();
            assert(issue == before[k - 1]);
            let ghost msg = issue.message@;
            assert(msg == v[k - 1].2);
            let ghost old_rev = rev@;
            rev.push(issue.message);
            k -= 1;
            proof {
                assert forall|j: int| 0 <= j < n - k implies #[trigger] rev@[j]@ == v[n - 1 - j].2 by {
                    if j < old_rev.len() {
                        assert(rev@[j] == old_rev[j]);
                    }
                }
                assert forall|j: int| 0 <= j < k implies #[trigger] issue_view(issues@[j]) == v[j] by {
                    assert(issues@[j] == before[j]);
                }
            }
        }
        let mut m: usize = n;
        while m > 0
            invariant
                m <= n,
                rev@.len() == m,
                forall|j: int| 0 <= j < m ==> #[trigger] rev@[j]@ == v[n - 1 - j].2,
                out@.len() == n - m,
                forall|j: int| 0 <= j < n - m ==> #[trigger] out@[j]@ == v[j].2,
            decreases m,
        {
            let ghost before = rev@;
            let s = rev.pop().unwrap();
            assert(s == before[m - 1]);
            let ghost old_out = out@;
            out.push(s);
            m -= 1;
            proof {
                assert forall|j: int| 0 <= j < n - m implies #[trigger] out@[j]@ == v[j].2 by {
                    if j < old_out.len() {
                        assert(out@[j] == old_out[j]);
                    }
                }
                assert forall|j: int| 0 <= j < m implies #[trigger] rev@[j]@ == v[n - 1 - j].2 by {
                    assert(rev@[j] == before[j]);
                }
            }
        }
        out
    }
}

/// An issue is a warning exactly when it is about a checksum or the
/// directory order.
pub open spec fn severity_by_category(i: IssueView) -> bool {
    (i.0 == IssueSeverity::Warning) <==> (i.1 == IssueCategory::Checksum || i.1
        == IssueCategory::DirectorySort)
}

/// Every issue of the list is classed as `severity_by_category` says.
pub open spec fn all_classed(s: Seq<IssueView>) -> bool {
    forall|k: int| 0 <= k < s.len() ==> severity_by_category(#[trigger] s[k])
}

/// Some issue of the list is about `head`'s magic number.
pub open spec fn has_magic_issue(s: Seq<IssueView>) -> bool {
    exists|k: int| 0 <= k < s.len() && (#[trigger] s[k]).1 == IssueCategory::HeadMagic
}

/// Some issue of the list is of this category.
pub open spec fn has_category(s: Seq<IssueView>, c: IssueCategory) -> bool {
    exists|k: int| 0 <= k < s.len() && (#[trigger] s[k]).1 == c
}

/// The categories of the checks on `head`, `hhea` and `glyf` with `loca`.
pub open spec fn header_category(c: IssueCategory) -> bool {
    c == IssueCategory::HeadMagic || c == IssueCategory::HeadUnitsPerEm || c
        == IssueCategory::HheaMetrics || c == IssueCategory::GlyfLoca
}

/// No issue of the list comes from the header checks.
pub open spec fn no_header_finding(s: Seq<IssueView>) -> bool {
    forall|k: int| 0 <= k < s.len() ==> !header_category((#[trigger] s[k]).1)
}

proof fn lemma_concat_category(a: Seq<IssueView>, b: Seq<IssueView>, c: IssueCategory)
    ensures
        has_category(a + b, c) <==> (has_category(a, c) || has_category(b, c)),
        no_header_finding(a) && no_header_finding(b) ==> no_header_finding(a + b),
{
    let s = a + b;
    if has_category(s, c) {
        let k = choose|k: int| 0 <= k < s.len() && (#[trigger] s[k]).1 == c;
        if k < a.len() {
            assert(a[k] == s[k]);
        } else {
            assert(b[k - a.len()] == s[k]);
        }
    }
    if has_category(a, c) {
        let k = choose|k: int| 0 <= k < a.len() && (#[trigger] a[k]).1 == c;
        assert(s[k] == a[k]);
    }
    if has_category(b, c) {
        let k = choose|k: int| 0 <= k < b.len() && (#[trigger] b[k]).1 == c;
        assert(s[k + a.len()] == b[k]);
    }
    if no_header_finding(a) && no_header_finding(b) {
        assert forall|k: int| 0 <= k < s.len() implies !header_category((#[trigger] s[k]).1) by {
            if k < a.len() {
                assert(s[k] == a[k]);
            } else {
                assert(s[k] == b[k - a.len()]);
            }
        }
    }
}

proof fn lemma_issue_if_category(cond: bool, i: IssueView, c: IssueCategory)
    ensures
        has_category(issue_if(cond, i), c) <==> (cond && i.1 == c),
{
    if cond && i.1 == c {
        assert(issue_if(cond, i)[0] == i);
    }
}

proof fn lemma_concat_classed(a: Seq<IssueView>, b: Seq<IssueView>)
    ensures
        all_classed(a) && all_classed(b) ==> all_classed(a + b),
        has_magic_issue(a + b) <==> (has_magic_issue(a) || has_magic_issue(b)),
        no_header_finding(a) && no_header_finding(b) ==> no_header_finding(a + b),
{
    lemma_concat_category(a, b, IssueCategory::HeadMagic);
    let c = a + b;
    if all_classed(a) && all_classed(b) {
        assert forall|k: int| 0 <= k < c.len() implies severity_by_category(#[trigger] c[k]) by {
            if k < a.len() {
                assert(c[k] == a[k]);
            } else {
                assert(c[k] == b[k - a.len()]);
            }
        }
    }
    if has_magic_issue(c) {
        let k = choose|k: int| 0 <= k < c.len() && (#[trigger] c[k]).1 == IssueCategory::HeadMagic;
        if k < a.len() {
            assert(a[k] == c[k]);
        } else {
            assert(b[k - a.len()] == c[k]);
        }
    }
    if has_magic_issue(a) {
        let k = choose|k: int| 0 <= k < a.len() && (#[trigger] a[k]).1 == IssueCategory::HeadMagic;
        assert(c[k] == a[k]);
    }
    if has_magic_issue(b) {
        let k = choose|k: int| 0 <= k < b.len() && (#[trigger] b[k]).1 == IssueCategory::HeadMagic;
        assert(c[k + a.len()] == b[k]);
    }
}

proof fn lemma_missing_classed(recs: Seq<TableRecord>, k: int)
    ensures
        all_classed(missing_issues(recs, k)),
        !has_magic_issue(missing_issues(recs, k)),
        no_header_finding(missing_issues(recs, k)),
    decreases k,
{
    if k > 0 {
        lemma_missing_classed(recs, k - 1);
        let t = required_tags()[k - 1];
        let m = missing_issue(recs, t);
        if !has_tag(recs, t) {
            assert(m.len() == 1);
        }
        assert(all_classed(m));
        assert(no_header_finding(m));
        assert(!has_magic_issue(m));
        lemma_concat_classed(missing_issues(recs, k - 1), m);
    }
}

proof fn lemma_overlap_row_classed(recs: Seq<TableRecord>, i: int, j: int)
    ensures
        all_classed(overlap_row(recs, i, j)),
        !has_magic_issue(overlap_row(recs, i, j)),
        no_header_finding(overlap_row(recs, i, j)),
    decreases j - i,
{
    if j > i + 1 {
        lemma_overlap_row_classed(recs, i, j - 1);
        let a = recs[i];
        let b = recs[j - 1];
        let o = overlap_issue(a, b);
        assert(all_classed(o) && !has_magic_issue(o) && no_header_finding(o)) by {
            if o.len() > 0 {
                assert(o.len() == 1);
            }
        }
        lemma_concat_classed(overlap_row(recs, i, j - 1), o);
    }
}

proof fn lemma_overlaps_classed(recs: Seq<TableRecord>, i: int)
    ensures
        all_classed(overlap_issues(recs, i)),
        !has_magic_issue(overlap_issues(recs, i)),
        no_header_finding(overlap_issues(recs, i)),
    decreases i,
{
    if i > 0 {
        lemma_overlaps_classed(recs, i - 1);
        lemma_overlap_row_classed(recs, i - 1, recs.len() as int);
        lemma_concat_classed(overlap_issues(recs, i - 1), overlap_row(recs, i - 1, recs.len() as int));
    }
}

proof fn lemma_sort_classed(recs: Seq<TableRecord>, i: int)
    ensures
        all_classed(sort_issues(recs, i)),
        !has_magic_issue(sort_issues(recs, i)),
        no_header_finding(sort_issues(recs, i)),
    decreases i,
{
    if i > 1 {
        lemma_sort_classed(recs, i - 1);
        let c = tag_key(recs[i - 2].tag.0@) > tag_key(recs[i - 1].tag.0@);
        let w = issue_if(
            c,
            (
                IssueSeverity::Warning,
                IssueCategory::DirectorySort,
                "Table directory not sorted: "@ + lossy_text(recs[i - 2].tag.0@) + " before "@
                    + lossy_text(recs[i - 1].tag.0@),
                None,
            ),
        );
        assert(all_classed(w) && !has_magic_issue(w) && no_header_finding(w)) by {
            if c {
                assert(w.len() == 1);
            }
        }
        lemma_concat_classed(sort_issues(recs, i - 1), w);
    }
}

proof fn lemma_records_classed(recs: Seq<TableRecord>, buf: Seq<u8>, k: int)
    ensures
        all_classed(record_issues(recs, buf, k)),
        !has_magic_issue(record_issues(recs, buf, k)),
        no_header_finding(record_issues(recs, buf, k)),
    decreases k,
{
    if k > 0 {
        lemma_records_classed(recs, buf, k - 1);
        let r = record_issue(recs[k - 1], buf);
        assert(all_classed(r) && !has_magic_issue(r) && no_header_finding(r)) by {
            if r.len() > 0 {
                assert(r.len() == 1);
            }
        }
        lemma_concat_classed(record_issues(recs, buf, k - 1), r);
    }
}

proof fn lemma_counts_classed(f: Font)
    ensures
        all_classed(count_issues(f)),
        !has_magic_issue(count_issues(f)),
        no_header_finding(count_issues(f)),
{
    let c = count_issues(f);
    assert forall|k: int| 0 <= k < c.len() implies severity_by_category(#[trigger] c[k])
        && c[k].1 != IssueCategory::HeadMagic && !header_category(c[k].1) by {
        assert(c[k].0 == IssueSeverity::Error);
        assert(c[k].1 == IssueCategory::GlyphCount || c[k].1 == IssueCategory::HmtxCount);
    }
}

proof fn lemma_header_classed(f: Font)
    ensures
        all_classed(header_issues(f)),
        has_magic_issue(header_issues(f)) <==> f.head.magic_number != 0x5F0F3CF5,
{
    let h = header_issues(f);
    assert forall|k: int| 0 <= k < h.len() implies severity_by_category(#[trigger] h[k])
        && (h[k].1 == IssueCategory::HeadMagic ==> k == 0 && f.head.magic_number != 0x5F0F3CF5) by {
        assert(h[k].0 == IssueSeverity::Error);
    }
    if f.head.magic_number != 0x5F0F3CF5 {
        assert(h[0].1 == IssueCategory::HeadMagic);
    }
}

proof fn lemma_header_findings(f: Font, c: IssueCategory)
    ensures
        c == IssueCategory::HeadUnitsPerEm ==> (has_category(header_issues(f), c) <==> (
        f.head.units_per_em < 16 || f.head.units_per_em > 16384)),
        c == IssueCategory::HheaMetrics ==> (has_category(header_issues(f), c) <==> f.hhea.number_of_hmetrics
            > f.maxp.num_glyphs),
        c == IssueCategory::GlyfLoca ==> (has_category(header_issues(f), c) <==> has_tag(
            f.tables@,
            seq![0x67u8, 0x6c, 0x79, 0x66],
        ) != has_tag(f.tables@, seq![0x6cu8, 0x6f, 0x63, 0x61])),
{
    let recs = f.tables@;
    let has_glyf = has_tag(recs, seq![0x67u8, 0x6c, 0x79, 0x66]);
    let has_loca = has_tag(recs, seq![0x6cu8, 0x6f, 0x63, 0x61]);
    let c1 = f.head.magic_number != 0x5F0F3CF5;
    let x1 = (
        IssueSeverity::Error,
        IssueCategory::HeadMagic,
        "head.magicNumber is 0x"@ + hex8(f.head.magic_number) + ", expected 0x5F0F3CF5"@,
        None,
    );
    let c2 = f.head.units_per_em < 16 || f.head.units_per_em > 16384;
    let x2 = (
        IssueSeverity::Error,
        IssueCategory::HeadUnitsPerEm,
        "head.unitsPerEm is "@ + decimal(f.head.units_per_em as nat) + ", expected 16..16384"@,
        None,
    );
    let c3 = f.hhea.number_of_hmetrics > f.maxp.num_glyphs;
    let x3 = (
        IssueSeverity::Error,
        IssueCategory::HheaMetrics,
        "hhea.numberOfHMetrics ("@ + decimal(f.hhea.number_of_hmetrics as nat)
            + ") > maxp.numGlyphs ("@ + decimal(f.maxp.num_glyphs as nat) + ")"@,
        None,
    );
    let c4 = has_glyf != has_loca;
    let x4 = (
        IssueSeverity::Error,
        IssueCategory::GlyfLoca,
        "glyf and loca must both be present or both absent (glyf="@ + bool_text(has_glyf)
            + ", loca="@ + bool_text(has_loca) + ")"@,
        None,
    );
    let s1 = issue_if(c1, x1);
    let s2 = issue_if(c2, x2);
    let s3 = issue_if(c3, x3);
    let s4 = issue_if(c4, x4);
    assert(header_issues(f) == s1 + s2 + s3 + s4);
    lemma_issue_if_category(c1, x1, c);
    lemma_issue_if_category(c2, x2, c);
    lemma_issue_if_category(c3, x3, c);
    lemma_issue_if_category(c4, x4, c);
    lemma_concat_category(s1, s2, c);
    lemma_concat_category(s1 + s2, s3, c);
    lemma_concat_category(s1 + s2 + s3, s4, c);
}

/// A report has an issue about `hhea`'s count of metrics exactly when it
/// exceeds `maxp`'s glyph count, one about `head`'s units per em exactly
/// when they lie outside 16..16384, and one about `glyf` and `loca` exactly
/// when the directory lists one of them without the other; each such issue
/// is an error.
pub proof fn lemma_report_header_checks(f: Font, buf: Seq<u8>)
    ensures
        has_category(report_of(f, buf), IssueCategory::HheaMetrics) <==> f.hhea.number_of_hmetrics
            > f.maxp.num_glyphs,
        has_category(report_of(f, buf), IssueCategory::HeadUnitsPerEm) <==> (f.head.units_per_em
            < 16 || f.head.units_per_em > 16384),
        has_category(report_of(f, buf), IssueCategory::GlyfLoca) <==> has_tag(
            f.tables@,
            seq![0x67u8, 0x6c, 0x79, 0x66],
        ) != has_tag(f.tables@, seq![0x6cu8, 0x6f, 0x63, 0x61]),
        forall|k: int|
            0 <= k < report_of(f, buf).len() && header_category((#[trigger] report_of(f, buf)[k]).1)
                ==> report_of(f, buf)[k].0 == IssueSeverity::Error,
{
    let recs = f.tables@;
    let n = recs.len() as int;
    let a = missing_issues(recs, 7);
    let b = count_issues(f);
    let c = overlap_issues(recs, n);
    let d = sort_issues(recs, n);
    let e = header_issues(f);
    let g = record_issues(recs, buf, n);
    lemma_report_classes(f, buf);
    lemma_missing_classed(recs, 7);
    lemma_counts_classed(f);
    lemma_overlaps_classed(recs, n);
    lemma_sort_classed(recs, n);
    lemma_records_classed(recs, buf, n);
    lemma_concat_classed(a, b);
    lemma_concat_classed(a + b, c);
    lemma_concat_classed(a + b + c, d);
    let p = a + b + c + d;
    assert(report_of(f, buf) == p + e + g);
    assert forall|cat: IssueCategory| header_category(cat) implies (has_category(
        report_of(f, buf),
        cat,
    ) <==> #[trigger] has_category(e, cat)) by {
        lemma_concat_category(p, e, cat);
        lemma_concat_category(p + e, g, cat);
        if has_category(p, cat) {
            let k = choose|k: int| 0 <= k < p.len() && (#[trigger] p[k]).1 == cat;
            assert(!header_category(p[k].1));
        }
        if has_category(g, cat) {
            let k = choose|k: int| 0 <= k < g.len() && (#[trigger] g[k]).1 == cat;
            assert(!header_category(g[k].1));
        }
    }
    lemma_header_findings(f, IssueCategory::HheaMetrics);
    lemma_header_findings(f, IssueCategory::HeadUnitsPerEm);
    lemma_header_findings(f, IssueCategory::GlyfLoca);
    assert(header_category(IssueCategory::HheaMetrics));
    assert(header_category(IssueCategory::HeadUnitsPerEm));
    assert(header_category(IssueCategory::GlyfLoca));
    assert(has_category(report_of(f, buf), IssueCategory::HheaMetrics) <==> has_category(e, IssueCategory::HheaMetrics));
    assert(has_category(report_of(f, buf), IssueCategory::HeadUnitsPerEm) <==> has_category(e, IssueCategory::HeadUnitsPerEm));
    assert(has_category(report_of(f, buf), IssueCategory::GlyfLoca) <==> has_category(e, IssueCategory::GlyfLoca));
    let r = report_of(f, buf);
    assert forall|k: int| 0 <= k < r.len() && header_category((#[trigger] r[k]).1) implies r[k].0
        == IssueSeverity::Error by {
        assert(severity_by_category(r[k]));
    }
}

/// In every report, checksum mismatches and directory-order findings are
/// the only warnings and every other issue is an error, so checksum
/// mismatches alone leave a font valid; and the report has an issue about
/// `head`'s magic number exactly when that number is not 0x5F0F3CF5.
pub proof fn lemma_report_classes(f: Font, buf: Seq<u8>)
    ensures
        all_classed(report_of(f, buf)),
        has_magic_issue(report_of(f, buf)) <==> f.head.magic_number != 0x5F0F3CF5,
{
    let recs = f.tables@;
    let n = recs.len() as int;
    let a = missing_issues(recs, 7);
    let b = count_issues(f);
    let c = overlap_issues(recs, n);
    let d = sort_issues(recs, n);
    let e = header_issues(f);
    let g = record_issues(recs, buf, n);
    lemma_missing_classed(recs, 7);
    lemma_counts_classed(f);
    lemma_overlaps_classed(recs, n);
    lemma_sort_classed(recs, n);
    lemma_header_classed(f);
    lemma_records_classed(recs, buf, n);
    lemma_concat_classed(a, b);
    lemma_concat_classed(a + b, c);
    lemma_concat_classed(a + b + c, d);
    lemma_concat_classed(a + b + c + d, e);
    lemma_concat_classed(a + b + c + d + e, g);
}

/// Every issue of the list is of category `c1` or `c2`.
pub open spec fn only_categories(s: Seq<IssueView>, c1: IssueCategory, c2: IssueCategory) -> bool {
    forall|k: int| 0 <= k < s.len() ==> (#[trigger] s[k]).1 == c1 || s[k].1 == c2
}

proof fn lemma_only_concat(a: Seq<IssueView>, b: Seq<IssueView>, c1: IssueCategory, c2: IssueCategory)
    requires
        only_categories(a, c1, c2),
        only_categories(b, c1, c2),
    ensures
        only_categories(a + b, c1, c2),
{
    let s = a + b;
    assert forall|k: int| 0 <= k < s.len() implies (#[trigger] s[k]).1 == c1 || s[k].1 == c2 by {
        if k < a.len() {
            assert(s[k] == a[k]);
        } else {
            assert(s[k] == b[k - a.len()]);
        }
    }
}

proof fn lemma_only_lacks(s: Seq<IssueView>, c1: IssueCategory, c2: IssueCategory, c: IssueCategory)
    requires
        only_categories(s, c1, c2),
        c != c1,
        c != c2,
    ensures
        !has_category(s, c),
{
    if has_category(s, c) {
        let k = choose|k: int| 0 <= k < s.len() && (#[trigger] s[k]).1 == c;
        assert(s[k].1 == c1 || s[k].1 == c2);
    }
}

/// Some of the first `k` required tables has no record.
pub open spec fn some_required_missing(recs: Seq<TableRecord>, k: int) -> bool {
    exists|j: int| 0 <= j < k && !has_tag(recs, #[trigger] required_tags()[j])
}

proof fn lemma_missing_found(recs: Seq<TableRecord>, k: int)
    requires
        0 <= k <= 7,
    ensures
        only_categories(
            missing_issues(recs, k),
            IssueCategory::MissingRequiredTable,
            IssueCategory::MissingRequiredTable,
        ),
        has_category(missing_issues(recs, k), IssueCategory::MissingRequiredTable)
            <==> some_required_missing(recs, k),
    decreases k,
{
    let c = IssueCategory::MissingRequiredTable;
    if k > 0 {
        lemma_missing_found(recs, k - 1);
        let t = required_tags()[k - 1];
        let m = missing_issue(recs, t);
        let before = missing_issues(recs, k - 1);
        if !has_tag(recs, t) {
            assert(m.len() == 1 && m[0].1 == c);
        }
        assert(only_categories(m, c, c));
        assert(has_category(m, c) <==> !has_tag(recs, t));
        lemma_concat_category(before, m, c);
        lemma_only_concat(before, m, c, c);
        if some_required_missing(recs, k) {
            let j = choose|j: int| 0 <= j < k && !has_tag(recs, #[trigger] required_tags()[j]);
            if j < k - 1 {
                assert(some_required_missing(recs, k - 1));
            }
        }
        if some_required_missing(recs, k - 1) {
            let j = choose|j: int| 0 <= j < k - 1 && !has_tag(recs, #[trigger] required_tags()[j]);
            assert(0 <= j < k);
        }
    }
}

/// The `loca` table's count of glyphs differs from `glyf`'s.
pub open spec fn loca_count_differs(f: Font) -> bool {
    match f.loca {
        Some(l) => (if l.offsets@.len() == 0 {
            0
        } else {
            l.offsets@.len() - 1
        }) != glyf_count(f),
        None => false,
    }
}

proof fn lemma_counts_found(f: Font)
    ensures
        only_categories(count_issues(f), IssueCategory::GlyphCount, IssueCategory::HmtxCount),
        has_category(count_issues(f), IssueCategory::GlyphCount) <==> (f.maxp.num_glyphs
            != glyf_count(f) || loca_count_differs(f)),
        has_category(count_issues(f), IssueCategory::HmtxCount) <==> f.hmtx.h_metrics@.len()
            + f.hmtx.left_side_bearings@.len() != glyf_count(f),
{
    let s = count_issues(f);
    let gc = glyf_count(f);
    let hc = f.hmtx.h_metrics@.len() + f.hmtx.left_side_bearings@.len();
    assert forall|k: int| 0 <= k < s.len() implies (#[trigger] s[k]).1 == IssueCategory::GlyphCount
        || s[k].1 == IssueCategory::HmtxCount by {}
    if f.maxp.num_glyphs != gc || loca_count_differs(f) {
        assert(s[0].1 == IssueCategory::GlyphCount);
    } else {
        assert forall|k: int| 0 <= k < s.len() implies (#[trigger] s[k]).1
            == IssueCategory::HmtxCount by {}
    }
    if hc != gc {
        assert(s[s.len() - 1].1 == IssueCategory::HmtxCount);
    } else {
        assert forall|k: int| 0 <= k < s.len() implies (#[trigger] s[k]).1
            == IssueCategory::GlyphCount by {}
    }
}

/// Some record among the first `i` is listed after one whose tag sorts
/// after its own.
pub open spec fn some_out_of_order(recs: Seq<TableRecord>, i: int) -> bool {
    exists|j: int| 1 <= j < i && tag_key(recs[j - 1].tag.0@) > tag_key((#[trigger] recs[j]).tag.0@)
}

proof fn lemma_sort_found(recs: Seq<TableRecord>, i: int)
    requires
        i <= recs.len(),
    ensures
        only_categories(sort_issues(recs, i), IssueCategory::DirectorySort, IssueCategory::DirectorySort),
        has_category(sort_issues(recs, i), IssueCategory::DirectorySort) <==> some_out_of_order(recs, i),
    decreases i,
{
    let c = IssueCategory::DirectorySort;
    if i > 1 {
        lemma_sort_found(recs, i - 1);
        let s = sort_issues(recs, i);
        let before = sort_issues(recs, i - 1);
        let late = tag_key(recs[i - 2].tag.0@) > tag_key(recs[i - 1].tag.0@);
        assert forall|k: int| 0 <= k < s.len() implies (#[trigger] s[k]).1 == c || s[k].1 == c by {
            if k < before.len() {
                assert(s[k] == before[k]);
            }
        }
        if late {
            assert(s[s.len() - 1].1 == c);
            assert(recs[i - 1] == recs[i - 1]);
        } else {
            assert(s == before);
        }
        if has_category(before, c) {
            let k = choose|k: int| 0 <= k < before.len() && (#[trigger] before[k]).1 == c;
            assert(s[k] == before[k]);
        }
        if some_out_of_order(recs, i) {
            let j = choose|j: int|
                1 <= j < i && tag_key(recs[j - 1].tag.0@) > tag_key((#[trigger] recs[j]).tag.0@);
            if j < i - 1 {
                assert(some_out_of_order(recs, i - 1));
            }
        }
        if has_category(s, c) && !late {
            assert(has_category(before, c));
        }
        if some_out_of_order(recs, i - 1) {
            let j = choose|j: int|
                1 <= j < i - 1 && tag_key(recs[j - 1].tag.0@) > tag_key((#[trigger] recs[j]).tag.0@);
            assert(1 <= j < i);
        }
    }
}

/// The byte ranges of two records meet.
pub open spec fn ranges_meet(a: TableRecord, b: TableRecord) -> bool {
    a.offset < b.offset + b.length && b.offset < a.offset + a.length
}

/// Some record among the first `i` meets a later record.
pub open spec fn some_overlap(recs: Seq<TableRecord>, i: int) -> bool {
    exists|a: int, b: int| 0 <= a < i && a < b < recs.len() && #[trigger] ranges_meet(recs[a], recs[b])
}

proof fn lemma_row_found(recs: Seq<TableRecord>, i: int, j: int)
    requires
        0 <= i,
        j <= recs.len(),
    ensures
        only_categories(overlap_row(recs, i, j), IssueCategory::TableOverlap, IssueCategory::TableOverlap),
        has_category(overlap_row(recs, i, j), IssueCategory::TableOverlap) <==> exists|b: int|
            i < b < j && #[trigger] ranges_meet(recs[i], recs[b]),
    decreases j - i,
{
    let c = IssueCategory::TableOverlap;
    if j > i + 1 {
        lemma_row_found(recs, i, j - 1);
        let before = overlap_row(recs, i, j - 1);
        let o = overlap_issue(recs[i], recs[j - 1]);
        if ranges_meet(recs[i], recs[j - 1]) {
            assert(o.len() == 1 && o[0].1 == c);
        } else {
            assert(o.len() == 0);
        }
        assert(only_categories(o, c, c));
        lemma_concat_category(before, o, c);
        lemma_only_concat(before, o, c, c);
        if exists|b: int| i < b < j && #[trigger] ranges_meet(recs[i], recs[b]) {
            let b = choose|b: int| i < b < j && #[trigger] ranges_meet(recs[i], recs[b]);
            if b < j - 1 {
                assert(exists|b: int| i < b < j - 1 && #[trigger] ranges_meet(recs[i], recs[b]));
            }
        }
        if exists|b: int| i < b < j - 1 && #[trigger] ranges_meet(recs[i], recs[b]) {
            let b = choose|b: int| i < b < j - 1 && #[trigger] ranges_meet(recs[i], recs[b]);
            assert(i < b < j);
        }
        if ranges_meet(recs[i], recs[j - 1]) {
            assert(i < j - 1 < j);
        }
    }
}

proof fn lemma_overlaps_found(recs: Seq<TableRecord>, i: int)
    requires
        i <= recs.len(),
    ensures
        only_categories(overlap_issues(recs, i), IssueCategory::TableOverlap, IssueCategory::TableOverlap),
        has_category(overlap_issues(recs, i), IssueCategory::TableOverlap) <==> some_overlap(recs, i),
    decreases i,
{
    let c = IssueCategory::TableOverlap;
    let n = recs.len() as int;
    if i > 0 {
        lemma_overlaps_found(recs, i - 1);
        lemma_row_found(recs, i - 1, n);
        let before = overlap_issues(recs, i - 1);
        let row = overlap_row(recs, i - 1, n);
        lemma_concat_category(before, row, c);
        lemma_only_concat(before, row, c, c);
        if some_overlap(recs, i) {
            let (a, b) = choose|a: int, b: int|
                0 <= a < i && a < b < recs.len() && #[trigger] ranges_meet(recs[a], recs[b]);
            if a < i - 1 {
                assert(some_overlap(recs, i - 1));
            } else {
                assert(exists|b: int| i - 1 < b < n && #[trigger] ranges_meet(recs[i - 1], recs[b]));
            }
        }
        if some_overlap(recs, i - 1) {
            let (a, b) = choose|a: int, b: int|
                0 <= a < i - 1 && a < b < recs.len() && #[trigger] ranges_meet(recs[a], recs[b]);
            assert(0 <= a < i);
        }
        if exists|b: int| i - 1 < b < n && #[trigger] ranges_meet(recs[i - 1], recs[b]) {
            let b = choose|b: int| i - 1 < b < n && #[trigger] ranges_meet(recs[i - 1], recs[b]);
            assert(0 <= i - 1 < i && i - 1 < b < recs.len());
        }
    }
}

/// The record's range ends past the file.
pub open spec fn record_beyond(rec: TableRecord, buf: Seq<u8>) -> bool {
    rec.offset + rec.length > buf.len()
}

/// The record's range lies in the file and the checksum of its bytes
/// differs from the recorded one.
pub open spec fn record_sum_differs(rec: TableRecord, buf: Seq<u8>) -> bool {
    !record_beyond(rec, buf) && table_sum(
        rec.tag.0@,
        buf.subrange(rec.offset as int, rec.offset + rec.length),
    ) != rec.checksum
}

/// Some record among the first `k` ends past the file.
pub open spec fn some_beyond(recs: Seq<TableRecord>, buf: Seq<u8>, k: int) -> bool {
    exists|j: int| 0 <= j < k && record_beyond(#[trigger] recs[j], buf)
}

/// Some record among the first `k` has a wrong checksum.
pub open spec fn some_sum_differs(recs: Seq<TableRecord>, buf: Seq<u8>, k: int) -> bool {
    exists|j: int| 0 <= j < k && record_sum_differs(#[trigger] recs[j], buf)
}

proof fn lemma_records_found(recs: Seq<TableRecord>, buf: Seq<u8>, k: int)
    requires
        k <= recs.len(),
    ensures
        only_categories(record_issues(recs, buf, k), IssueCategory::TableBounds, IssueCategory::Checksum),
        has_category(record_issues(recs, buf, k), IssueCategory::TableBounds) <==> some_beyond(
            recs,
            buf,
            k,
        ),
        has_category(record_issues(recs, buf, k), IssueCategory::Checksum) <==> some_sum_differs(
            recs,
            buf,
            k,
        ),
    decreases k,
{
    let cb = IssueCategory::TableBounds;
    let cs = IssueCategory::Checksum;
    if k > 0 {
        lemma_records_found(recs, buf, k - 1);
        let before = record_issues(recs, buf, k - 1);
        let rec = recs[k - 1];
        let r = record_issue(rec, buf);
        if record_beyond(rec, buf) {
            assert(r.len() == 1 && r[0].1 == cb);
        } else if record_sum_differs(rec, buf) {
            assert(r.len() == 1 && r[0].1 == cs);
        } else {
            assert(r.len() == 0);
        }
        assert(only_categories(r, cb, cs));
        lemma_concat_category(before, r, cb);
        lemma_concat_category(before, r, cs);
        lemma_only_concat(before, r, cb, cs);
        if some_beyond(recs, buf, k) {
            let j = choose|j: int| 0 <= j < k && record_beyond(#[trigger] recs[j], buf);
            if j < k - 1 {
                assert(some_beyond(recs, buf, k - 1));
            }
        }
        if some_beyond(recs, buf, k - 1) {
            let j = choose|j: int| 0 <= j < k - 1 && record_beyond(#[trigger] recs[j], buf);
            assert(0 <= j < k);
        }
        if some_sum_differs(recs, buf, k) {
            let j = choose|j: int| 0 <= j < k && record_sum_differs(#[trigger] recs[j], buf);
            if j < k - 1 {
                assert(some_sum_differs(recs, buf, k - 1));
            }
        }
        if some_sum_differs(recs, buf, k - 1) {
            let j = choose|j: int| 0 <= j < k - 1 && record_sum_differs(#[trigger] recs[j], buf);
            assert(0 <= j < k);
        }
    }
}

proof fn lemma_header_only(f: Font)
    ensures
        forall|k: int|
            0 <= k < header_issues(f).len() ==> header_category((#[trigger] header_issues(f)[k]).1),
{
    let h = header_issues(f);
    assert forall|k: int| 0 <= k < h.len() implies header_category((#[trigger] h[k]).1) by {}
}

/// The report lists a missing required table exactly when one of `head`,
/// `hhea`, `maxp`, `name`, `cmap`, `OS/2` and `hmtx` has no record; a glyph
/// count problem exactly when `maxp` or `loca` counts other than `glyf`
/// holds; an `hmtx` count problem exactly when the metrics and bearings
/// number other than `glyf`'s glyphs; an overlap exactly when the ranges
/// of two records meet; a directory order problem exactly when a record
/// follows one whose tag sorts after its own; a bounds problem exactly
/// when a record ends past the file; and a checksum problem exactly when a
/// record inside the file has bytes whose checksum differs from the
/// recorded one.
pub proof fn lemma_report_findings(f: Font, buf: Seq<u8>)
    ensures
        has_category(report_of(f, buf), IssueCategory::MissingRequiredTable)
            <==> some_required_missing(f.tables@, 7),
        has_category(report_of(f, buf), IssueCategory::GlyphCount) <==> (f.maxp.num_glyphs
            != glyf_count(f) || loca_count_differs(f)),
        has_category(report_of(f, buf), IssueCategory::HmtxCount) <==> f.hmtx.h_metrics@.len()
            + f.hmtx.left_side_bearings@.len() != glyf_count(f),
        has_category(report_of(f, buf), IssueCategory::TableOverlap) <==> some_overlap(
            f.tables@,
            f.tables@.len() as int,
        ),
        has_category(report_of(f, buf), IssueCategory::DirectorySort) <==> some_out_of_order(
            f.tables@,
            f.tables@.len() as int,
        ),
        has_category(report_of(f, buf), IssueCategory::TableBounds) <==> some_beyond(
            f.tables@,
            buf,
            f.tables@.len() as int,
        ),
        has_category(report_of(f, buf), IssueCategory::Checksum) <==> some_sum_differs(
            f.tables@,
            buf,
            f.tables@.len() as int,
        ),
{
    let recs = f.tables@;
    let n = recs.len() as int;
    let a = missing_issues(recs, 7);
    let b = count_issues(f);
    let c = overlap_issues(recs, n);
    let d = sort_issues(recs, n);
    let e = header_issues(f);
    let g = record_issues(recs, buf, n);
    lemma_missing_found(recs, 7);
    lemma_counts_found(f);
    lemma_overlaps_found(recs, n);
    lemma_sort_found(recs, n);
    lemma_records_found(recs, buf, n);
    lemma_header_only(f);
    assert(report_of(f, buf) == a + b + c + d + e + g);
    assert forall|cat: IssueCategory| !header_category(cat) implies !#[trigger] has_category(e, cat) by {
        if has_category(e, cat) {
            let k = choose|k: int| 0 <= k < e.len() && (#[trigger] e[k]).1 == cat;
            assert(header_category(e[k].1));
        }
    }
    assert forall|cat: IssueCategory| #[trigger] has_category(report_of(f, buf), cat) <==> (
    has_category(a, cat) || has_category(b, cat) || has_category(c, cat) || has_category(d, cat)
        || has_category(e, cat) || has_category(g, cat)) by {
        lemma_concat_category(a, b, cat);
        lemma_concat_category(a + b, c, cat);
        lemma_concat_category(a + b + c, d, cat);
        lemma_concat_category(a + b + c + d, e, cat);
        lemma_concat_category(a + b + c + d + e, g, cat);
    }
    let m = IssueCategory::MissingRequiredTable;
    let gcat = IssueCategory::GlyphCount;
    let h = IssueCategory::HmtxCount;
    let o = IssueCategory::TableOverlap;
    let so = IssueCategory::DirectorySort;
    let tb = IssueCategory::TableBounds;
    let cs = IssueCategory::Checksum;
    lemma_only_lacks(a, m, m, gcat);
    lemma_only_lacks(a, m, m, h);
    lemma_only_lacks(a, m, m, o);
    lemma_only_lacks(a, m, m, so);
    lemma_only_lacks(a, m, m, tb);
    lemma_only_lacks(a, m, m, cs);
    lemma_only_lacks(b, gcat, h, m);
    lemma_only_lacks(b, gcat, h, o);
    lemma_only_lacks(b, gcat, h, so);
    lemma_only_lacks(b, gcat, h, tb);
    lemma_only_lacks(b, gcat, h, cs);
    lemma_only_lacks(c, o, o, m);
    lemma_only_lacks(c, o, o, gcat);
    lemma_only_lacks(c, o, o, h);
    lemma_only_lacks(c, o, o, so);
    lemma_only_lacks(c, o, o, tb);
    lemma_only_lacks(c, o, o, cs);
    lemma_only_lacks(d, so, so, m);
    lemma_only_lacks(d, so, so, gcat);
    lemma_only_lacks(d, so, so, h);
    lemma_only_lacks(d, so, so, o);
    lemma_only_lacks(d, so, so, tb);
    lemma_only_lacks(d, so, so, cs);
    lemma_only_lacks(g, tb, cs, m);
    lemma_only_lacks(g, tb, cs, gcat);
    lemma_only_lacks(g, tb, cs, h);
    lemma_only_lacks(g, tb, cs, o);
    lemma_only_lacks(g, tb, cs, so);
    assert(!has_category(e, m) && !has_category(e, gcat) && !has_category(e, h));
    assert(!has_category(e, o) && !has_category(e, so) && !has_category(e, tb) && !has_category(e, cs));
    assert(has_category(report_of(f, buf), m) == has_category(a, m));
    assert(has_category(report_of(f, buf), gcat) == has_category(b, gcat));
    assert(has_category(report_of(f, buf), h) == has_category(b, h));
    assert(has_category(report_of(f, buf), o) == has_category(c, o));
    assert(has_category(report_of(f, buf), so) == has_category(d, so));
    assert(has_category(report_of(f, buf), tb) == has_category(g, tb));
    assert(has_category(report_of(f, buf), cs) == has_category(g, cs));
}

} // verus!

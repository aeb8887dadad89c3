//! Whole reports: every block of a table report decoded, and every section
//! of an inline report read.
//!
//! Under `Policy::Strict` the first fault, structural or of a field, is the
//! error of the report. Under `Policy::Lenient` what does not decode is
//! dropped and counted where it was dropped, and the rest is kept.

use vstd::prelude::*;
use crate::decode::decode_block;
use crate::decode::decoded_block;
use crate::decode::DecodedBlock;
use crate::decode::DecodedBlockModel;
use crate::decode::FieldParseError;
use crate::decode::FieldParseErrorModel;
use crate::inline::get_queries;
use crate::inline::process;
use crate::inline::section_of;
use crate::inline::QuerySection;
use crate::inline::QuerySectionModel;
use crate::segment::block_views;
use crate::segment::query_marker;
use crate::segment::segment;
use crate::segment::segmented;
use crate::segment::BlockModel;
use crate::segment::MalformedReport;
use crate::segment::Policy;
use crate::segment::SegmentationModel;
use crate::text::byte_rows;
use crate::text::pieces;

verus! {

/// Why a report could not be read.
#[derive(Debug)]
pub enum ReportError {
    /// The report is malformed.
    Malformed(MalformedReport),
    /// A field does not decode.
    Field(FieldParseError),
}

/// The value of a [`ReportError`].
pub ghost enum ReportErrorModel {
    Malformed(MalformedReport),
    Field(FieldParseErrorModel),
}

impl View for ReportError {
    type V = ReportErrorModel;

    open spec fn view(&self) -> ReportErrorModel {
        match self {
            ReportError::Malformed(e) => ReportErrorModel::Malformed(*e),
            ReportError::Field(e) => ReportErrorModel::Field(e@),
        }
    }
}

/// A table report, read: its blocks decoded, in order, each with the rows
/// that its decoding dropped, and what the segmenter dropped.
#[derive(Debug)]
pub struct TableReport {
    pub blocks: Vec<DecodedBlock>,
    /// The short rows that the segmenter dropped.
    pub skipped_rows: usize,
    /// The tables that the segmenter dropped.
    pub skipped_blocks: usize,
}

/// The value of a [`TableReport`].
pub ghost struct TableReportModel {
    pub blocks: Seq<DecodedBlockModel>,
    pub skipped_rows: nat,
    pub skipped_blocks: nat,
}

/// The values of the decoded blocks of `v`, in order.
pub open spec fn decoded_views(v: Seq<DecodedBlock>) -> Seq<DecodedBlockModel> {
    Seq::new(v.len(), |i: int| v[i]@)
}

impl View for TableReport {
    type V = TableReportModel;

    open spec fn view(&self) -> TableReportModel {
        TableReportModel {
            blocks: decoded_views(self.blocks@),
            skipped_rows: self.skipped_rows as nat,
            skipped_blocks: self.skipped_blocks as nat,
        }
    }
}

/// The first `n` of `blocks`, decoded in order, or the error of the first
/// block that has one.
pub open spec fn decoded_blocks(blocks: Seq<BlockModel>, lenient: bool, n: int) -> Result<
    Seq<DecodedBlockModel>,
    FieldParseErrorModel,
>
    decreases n,
{
    if n <= 0 {
        Ok(Seq::empty())
    } else {
        match decoded_blocks(blocks, lenient, n - 1) {
            Err(e) => Err(e),
            Ok(before) => match decoded_block(blocks[n - 1].name, blocks[n - 1].rows, lenient) {
                Ok(b) => Ok(before.push(b)),
                Err(e) => Err(e),
            },
        }
    }
}

/// The table report `content`, read.
pub open spec fn table_report(content: Seq<u8>, policy: Policy) -> Result<
    TableReportModel,
    ReportErrorModel,
> {
    match segmented(content, policy) {
        Err(e) => Err(ReportErrorModel::Malformed(e)),
        Ok(s) => match decoded_blocks(s.blocks, policy == Policy::Lenient, s.blocks.len() as int) {
            Err(e) => Err(ReportErrorModel::Field(e)),
            Ok(blocks) => Ok(
                TableReportModel {
                    blocks,
                    skipped_rows: s.skipped_rows,
                    skipped_blocks: s.skipped_blocks,
                },
            ),
        },
    }
}

/// The value of a table report that was read, or of its error.
pub open spec fn table_report_view(r: Result<TableReport, ReportError>) -> Result<
    TableReportModel,
    ReportErrorModel,
> {
    match r {
        Ok(t) => Ok(t@),
        Err(e) => Err(e@),
    }
}

/// Once the blocks give an error, more blocks give the same error.
pub proof fn lemma_decoded_blocks_fault(blocks: Seq<BlockModel>, lenient: bool, n: int, m: int)
    requires
        n <= m,
        decoded_blocks(blocks, lenient, n).is_err(),
    ensures
        decoded_blocks(blocks, lenient, m) == decoded_blocks(blocks, lenient, n),
    decreases m - n,
{
    if n < m {
        lemma_decoded_blocks_fault(blocks, lenient, n, m - 1);
    }
}

/// Reads a table report: cuts it into blocks and decodes the rows of each.
pub fn read_table_report(content: &[u8], policy: Policy) -> (r: Result<TableReport, ReportError>)
    ensures
        table_report_view(r) == table_report(content@, policy),
        policy == Policy::Lenient ==> r.is_ok(),
{
    let s = match segment(content, policy) {
        Ok(s) => s,
        Err(e) => {
            return Err(ReportError::Malformed(e));
        },
    };
    let ghost models = block_views(s.blocks@);
    let ghost lenient = policy == Policy::Lenient;
    let mut blocks: Vec<DecodedBlock> = Vec::new();
    let mut i: usize = 0;
    assert(decoded_views(blocks@) =~= Seq::<DecodedBlockModel>::empty());
    assert(models.len() == s.blocks.len());
    while i < s.blocks.len()
        invariant
            i <= s.blocks.len(),
            models == block_views(s.blocks@),
            models.len() == s.blocks.len(),
            lenient == (policy == Policy::Lenient),
            segmented(content@, policy) == Ok::<SegmentationModel, MalformedReport>(s@),
            decoded_blocks(models, lenient, i as int) == Ok::<
                Seq<DecodedBlockModel>,
                FieldParseErrorModel,
            >(decoded_views(blocks@)),
        decreases s.blocks.len() - i,
    {
        assert(models[i as int] == s.blocks[i as int]@);
        match decode_block(&s.blocks[i], policy) {
            Ok(b) => {
                let ghost before = decoded_views(blocks@);
                blocks.push(b);
                assert(decoded_views(blocks@) =~= before.push(b@));
            },
            Err(e) => {
                proof {
                    lemma_decoded_blocks_fault(models, lenient, i + 1, models.len() as int);
                }
                return Err(ReportError::Field(e));
            },
        }
        i += 1;
    }
    Ok(TableReport { blocks, skipped_rows: s.skipped_rows, skipped_blocks: s.skipped_blocks })
}

/// An inline report, read: its sections in order, and the number of
/// sections dropped because their header does not decode.
#[derive(Debug)]
pub struct InlineReport {
    pub sections: Vec<QuerySection>,
    pub skipped_sections: usize,
}

/// The value of an [`InlineReport`].
pub ghost struct InlineReportModel {
    pub sections: Seq<QuerySectionModel>,
    pub skipped_sections: nat,
}

/// The values of the sections of `v`, in order.
pub open spec fn section_views(v: Seq<QuerySection>) -> Seq<QuerySectionModel> {
    Seq::new(v.len(), |i: int| v[i]@)
}

impl View for InlineReport {
    type V = InlineReportModel;

    open spec fn view(&self) -> InlineReportModel {
        InlineReportModel {
            sections: section_views(self.sections@),
            skipped_sections: self.skipped_sections as nat,
        }
    }
}

/// What the first `n` parts of a report give, the first part, the text
/// before the first query, left out: the sections read, in order, with the
/// number of sections dropped. A section that cannot be read is dropped if
/// `lenient` is set, and else the first such section is the error.
pub open spec fn sections_of(parts: Seq<Seq<u8>>, lenient: bool, n: int) -> Result<
    InlineReportModel,
    FieldParseErrorModel,
>
    decreases n,
{
    if n <= 1 {
        Ok(InlineReportModel { sections: Seq::empty(), skipped_sections: 0 })
    } else {
        match sections_of(parts, lenient, n - 1) {
            Err(e) => Err(e),
            Ok(before) => match section_of(parts[n - 1], lenient) {
                Ok(s) => Ok(InlineReportModel { sections: before.sections.push(s), ..before }),
                Err(e) => if lenient {
                    Ok(
                        InlineReportModel {
                            skipped_sections: before.skipped_sections + 1,
                            ..before
                        },
                    )
                } else {
                    Err(e)
                },
            },
        }
    }
}

/// The inline report `content`, read.
pub open spec fn inline_report(content: Seq<u8>, policy: Policy) -> Result<
    InlineReportModel,
    FieldParseErrorModel,
> {
    let parts = pieces(content, query_marker());
    sections_of(parts, policy == Policy::Lenient, parts.len() as int)
}

/// The value of an inline report that was read, or of its error.
pub open spec fn inline_report_view(r: Result<InlineReport, FieldParseError>) -> Result<
    InlineReportModel,
    FieldParseErrorModel,
> {
    match r {
        Ok(t) => Ok(t@),
        Err(e) => Err(e@),
    }
}

/// Once the sections give an error, more sections give the same error.
pub proof fn lemma_sections_fault(parts: Seq<Seq<u8>>, lenient: bool, n: int, m: int)
    requires
        n <= m,
        sections_of(parts, lenient, n).is_err(),
    ensures
        sections_of(parts, lenient, m) == sections_of(parts, lenient, n),
    decreases m - n,
{
    if n < m {
        lemma_sections_fault(parts, lenient, n, m - 1);
    }
}

/// Reads an inline report: cuts it into query sections and reads each.
pub fn read_inline_report(content: &[u8], policy: Policy) -> (r: Result<
    InlineReport,
    FieldParseError,
>)
    ensures
        inline_report_view(r) == inline_report(content@, policy),
        policy == Policy::Lenient ==> r.is_ok(),
{
    let parts = get_queries(content);
    let ghost rows = byte_rows(parts@);
    let ghost lenient = policy == Policy::Lenient;
    let mut sections: Vec<QuerySection> = Vec::new();
    let mut skipped_sections: usize = 0;
    let mut i: usize = 1;
    assert(section_views(sections@) =~= Seq::<QuerySectionModel>::empty());
    assert(rows.len() == parts.len());
    while i < parts.len()
        invariant
            1 <= i <= parts.len(),
            rows == byte_rows(parts@),
            rows == pieces(content@, query_marker()),
            rows.len() == parts.len(),
            lenient == (policy == Policy::Lenient),
            skipped_sections < i,
            sections_of(rows, lenient, i as int) == Ok::<InlineReportModel, FieldParseErrorModel>(
                InlineReportModel {
                    sections: section_views(sections@),
                    skipped_sections: skipped_sections as nat,
                },
            ),
        decreases parts.len() - i,
    {
        assert(rows[i as int] == parts[i as int]@);
        match process(parts[i].as_slice(), policy) {
            Ok(s) => {
                let ghost before = section_views(sections@);
                sections.push(s);
                assert(section_views(sections@) =~= before.push(s@));
            },
            Err(e) => {
                match policy {
                    Policy::Lenient => {
                        skipped_sections = skipped_sections + 1;
                    },
                    Policy::Strict => {
                        proof {
                            lemma_sections_fault(rows, lenient, i + 1, rows.len() as int);
                        }
                        return Err(e);
                    },
                }
            },
        }
        i += 1;
    }
    Ok(InlineReport { sections, skipped_sections })
}

/// The two dialects of a report.
#[derive(Clone, Copy, Debug, PartialEq, Eq, Structural)]
pub enum Dialect {
    /// Every query has a table of significant hits, one row for each hit.
    Table,
    /// Every alignment carries its own length and score lines.
    Inline,
}

/// A report of either dialect, read.
#[derive(Debug)]
pub enum Report {
    Table(TableReport),
    Inline(InlineReport),
}

/// Whether `r` is what reading `content` as a report of the dialect
/// `dialect` gives: the report of that dialect, or its error.
pub open spec fn is_reading_of(
    r: Result<Report, ReportError>,
    content: Seq<u8>,
    dialect: Dialect,
    policy: Policy,
) -> bool {
    match dialect {
        Dialect::Table => match r {
            Ok(Report::Table(t)) => table_report(content, policy) == Ok::<
                TableReportModel,
                ReportErrorModel,
            >(t@),
            Ok(Report::Inline(_)) => false,
            Err(e) => table_report(content, policy) == Err::<TableReportModel, ReportErrorModel>(
                e@,
            ),
        },
        Dialect::Inline => match r {
            Ok(Report::Inline(t)) => inline_report(content, policy) == Ok::<
                InlineReportModel,
                FieldParseErrorModel,
            >(t@),
            Ok(Report::Table(_)) => false,
            Err(ReportError::Field(e)) => inline_report(content, policy) == Err::<
                InlineReportModel,
                FieldParseErrorModel,
            >(e@),
            Err(ReportError::Malformed(_)) => false,
        },
    }
}

/// Reads a report of the dialect `dialect`.
pub fn read_report(content: &[u8], dialect: Dialect, policy: Policy) -> (r: Result<
    Report,
    ReportError,
>)
    ensures
        is_reading_of(r, content@, dialect, policy),
        policy == Policy::Lenient ==> r.is_ok(),
{
    match dialect {
        Dialect::Table => match read_table_report(content, policy) {
            Ok(t) => Ok(Report::Table(t)),
            Err(e) => Err(e),
        },
        Dialect::Inline => match read_inline_report(content, policy) {
            Ok(t) => Ok(Report::Inline(t)),
            Err(e) => Err(ReportError::Field(e)),
        },
    }
}

} // verus!

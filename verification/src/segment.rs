//! The report segmenter: one forward pass over the physical lines of a report
//! that cuts it into per-query blocks of raw hit rows.
//!
//! The scanner is either outside a hits table or inside one. A line that
//! begins with the query marker names the block under construction; a line
//! that begins with the table header opens that block's table; inside a table
//! every line is a raw row until a line begins with the hit marker, which
//! closes the table and records the block. Empty lines are passed over. The
//! end of the text closes an open table that holds rows as the hit marker
//! does; an open table without rows is then a fault, the truncated table.
//!
//! A row is accepted only if it has at least [`ROW_FIELDS`] tokens. Under
//! `Policy::Strict` the first fault ends the scan with an error; under
//! `Policy::Lenient` a short row is dropped and counted, and a table that no
//! named query precedes, or that is truncated, is dropped with its rows and
//! counted.

use vstd::prelude::*;
use vstd::slice::slice_to_vec;
use crate::text::byte_rows;
use crate::text::has_prefix;
use crate::text::is_word;
use crate::text::lemma_tokens_are_words;
use crate::text::lines;
use crate::text::split_lines;
use crate::text::split_tokens;
use crate::text::starts_with;
use crate::text::tokens;

verus! {

/// The least number of whitespace-separated tokens in a row of a hits table.
pub const ROW_FIELDS: usize = 7;

/// `Query= `, which opens the section of one query.
pub open spec fn query_marker() -> Seq<u8> {
    seq![81u8, 117u8, 101u8, 114u8, 121u8, 61u8, 32u8]
}

/// `Sequences producing significant`, the header of a hits table.
pub open spec fn header_marker() -> Seq<u8> {
    seq![
        83u8, 101u8, 113u8, 117u8, 101u8, 110u8, 99u8, 101u8, 115u8, 32u8,
        112u8, 114u8, 111u8, 100u8, 117u8, 99u8, 105u8, 110u8, 103u8, 32u8,
        115u8, 105u8, 103u8, 110u8, 105u8, 102u8, 105u8, 99u8, 97u8, 110u8, 116u8,
    ]
}

/// `>`, which opens the alignment details and so ends a hits table.
pub open spec fn hit_marker() -> Seq<u8> {
    seq![62u8]
}

/// The bytes of the query marker.
fn query_marker_bytes() -> (r: [u8; 7])
    ensures
        r@ == query_marker(),
{
    let r: [u8; 7] = [81, 117, 101, 114, 121, 61, 32];
    assert(r@ =~= query_marker());
    r
}

/// The bytes of the table header.
fn header_marker_bytes() -> (r: [u8; 31])
    ensures
        r@ == header_marker(),
{
    let r: [u8; 31] = [
        83, 101, 113, 117, 101, 110, 99, 101, 115, 32,
        112, 114, 111, 100, 117, 99, 105, 110, 103, 32,
        115, 105, 103, 110, 105, 102, 105, 99, 97, 110, 116,
    ];
    assert(r@ =~= header_marker());
    r
}

/// The bytes of the hit marker.
fn hit_marker_bytes() -> (r: [u8; 1])
    ensures
        r@ == hit_marker(),
{
    let r: [u8; 1] = [62];
    assert(r@ =~= hit_marker());
    r
}

/// What to do on a structural fault.
#[derive(Clone, Copy, Debug, PartialEq, Eq, Structural)]
pub enum Policy {
    /// The first fault ends the scan with an error.
    Strict,
    /// The faulty row or table is dropped and counted; the scan goes on.
    Lenient,
}

/// The structural faults of a report.
#[derive(Clone, Copy, Debug, PartialEq, Eq, Structural)]
pub enum FaultKind {
    /// A table header stands where no query has been named.
    HeaderBeforeQuery,
    /// A query line holds nothing after its marker.
    UnnamedQuery,
    /// A row of a hits table has fewer than [`ROW_FIELDS`] tokens.
    ShortRow,
    /// The text ends in a table that holds no row.
    TruncatedTable,
}

/// A structural fault, with the index of the physical line that holds it
/// (the first line has index 0).
#[derive(Clone, Copy, Debug, PartialEq, Eq, Structural)]
pub struct MalformedReport {
    pub line: usize,
    pub kind: FaultKind,
}

/// The text of one query's hits table: the query's name and the table's rows
/// in the order of the report.
#[derive(Debug)]
pub struct RawQueryBlock {
    pub name: Vec<u8>,
    pub raw_rows: Vec<Vec<u8>>,
}

/// The value of a [`RawQueryBlock`].
pub ghost struct BlockModel {
    pub name: Seq<u8>,
    pub rows: Seq<Seq<u8>>,
}

impl View for RawQueryBlock {
    type V = BlockModel;

    open spec fn view(&self) -> BlockModel {
        BlockModel { name: self.name@, rows: byte_rows(self.raw_rows@) }
    }
}

/// The values of the blocks of `v`, in order.
pub open spec fn block_views(v: Seq<RawQueryBlock>) -> Seq<BlockModel> {
    Seq::new(v.len(), |i: int| v[i]@)
}

/// The scanner between two lines.
#[derive(Debug)]
pub struct Scanner {
    /// The blocks recorded so far.
    pub blocks: Vec<RawQueryBlock>,
    /// The name of the block under construction, once a query line gave one.
    pub name: Option<Vec<u8>>,
    /// Whether the scanner is inside a hits table.
    pub in_table: bool,
    /// The rows collected in the open table.
    pub rows: Vec<Vec<u8>>,
    /// The short rows dropped so far.
    pub skipped_rows: usize,
    /// The tables dropped so far for want of a query name.
    pub skipped_blocks: usize,
    /// The fault that ended the scan, if one did.
    pub fault: Option<MalformedReport>,
    /// The number of lines consumed.
    pub seen: usize,
}

/// The value of a [`Scanner`].
pub ghost struct ScanModel {
    pub blocks: Seq<BlockModel>,
    pub name: Option<Seq<u8>>,
    pub in_table: bool,
    pub rows: Seq<Seq<u8>>,
    pub skipped_rows: nat,
    pub skipped_blocks: nat,
    pub fault: Option<MalformedReport>,
    pub seen: nat,
}

impl View for Scanner {
    type V = ScanModel;

    open spec fn view(&self) -> ScanModel {
        ScanModel {
            blocks: block_views(self.blocks@),
            name: match self.name {
                Some(n) => Some(n@),
                None => None,
            },
            in_table: self.in_table,
            rows: byte_rows(self.rows@),
            skipped_rows: self.skipped_rows as nat,
            skipped_blocks: self.skipped_blocks as nat,
            fault: self.fault,
            seen: self.seen as nat,
        }
    }
}

/// The scanner before the first line.
pub open spec fn initial() -> ScanModel {
    ScanModel {
        blocks: Seq::empty(),
        name: None,
        in_table: false,
        rows: Seq::empty(),
        skipped_rows: 0,
        skipped_blocks: 0,
        fault: None,
        seen: 0,
    }
}

/// The scanner `st` with its open table closed: the block is recorded if it
/// has a name, and the scanner is outside a table again.
pub open spec fn close_table(st: ScanModel) -> ScanModel {
    ScanModel {
        blocks: match st.name {
            Some(n) => st.blocks.push(BlockModel { name: n, rows: st.rows }),
            None => st.blocks,
        },
        in_table: false,
        rows: Seq::empty(),
        ..st
    }
}

/// The scanner `st` stopped by a fault of kind `kind` in the line it was about
/// to consume.
pub open spec fn stopped(st: ScanModel, kind: FaultKind) -> ScanModel {
    ScanModel { fault: Some(MalformedReport { line: st.seen as usize, kind }), ..st }
}

/// The scanner after `line`, given the scanner `st` before it.
pub open spec fn step(st: ScanModel, line: Seq<u8>, lenient: bool) -> ScanModel {
    let next = ScanModel { seen: st.seen + 1, ..st };
    if st.fault.is_some() {
        st
    } else if line.len() == 0 {
        next
    } else if st.in_table {
        if has_prefix(line, hit_marker()) {
            close_table(next)
        } else if st.name.is_none() {
            next
        } else if tokens(line).len() >= ROW_FIELDS {
            ScanModel { rows: st.rows.push(line), ..next }
        } else if lenient {
            ScanModel { skipped_rows: st.skipped_rows + 1, ..next }
        } else {
            stopped(st, FaultKind::ShortRow)
        }
    } else if has_prefix(line, query_marker()) {
        if tokens(line).len() >= 2 {
            ScanModel { name: Some(tokens(line)[1]), ..next }
        } else if lenient {
            ScanModel { name: None, ..next }
        } else {
            stopped(st, FaultKind::UnnamedQuery)
        }
    } else if has_prefix(line, header_marker()) {
        if st.name.is_some() {
            ScanModel { in_table: true, ..next }
        } else if lenient {
            ScanModel { in_table: true, skipped_blocks: st.skipped_blocks + 1, ..next }
        } else {
            stopped(st, FaultKind::HeaderBeforeQuery)
        }
    } else {
        next
    }
}

/// The scanner after all of `lines`.
pub open spec fn scan(lines: Seq<Seq<u8>>, lenient: bool) -> ScanModel
    decreases lines.len(),
{
    if lines.len() == 0 {
        initial()
    } else {
        step(scan(lines.drop_last(), lenient), lines.last(), lenient)
    }
}

/// What a scan yields: the blocks in the order of the report, and what was
/// dropped on the way.
#[derive(Debug)]
pub struct Segmentation {
    pub blocks: Vec<RawQueryBlock>,
    pub skipped_rows: usize,
    pub skipped_blocks: usize,
}

/// The value of a [`Segmentation`].
pub ghost struct SegmentationModel {
    pub blocks: Seq<BlockModel>,
    pub skipped_rows: nat,
    pub skipped_blocks: nat,
}

impl View for Segmentation {
    type V = SegmentationModel;

    open spec fn view(&self) -> SegmentationModel {
        SegmentationModel {
            blocks: block_views(self.blocks@),
            skipped_rows: self.skipped_rows as nat,
            skipped_blocks: self.skipped_blocks as nat,
        }
    }
}

/// Whether the scanner `st` is inside the table of a named query and holds
/// no row.
pub open spec fn truncated(st: ScanModel) -> bool {
    st.in_table && st.name.is_some() && st.rows.len() == 0
}

/// The outcome of a scan that ended in `st`: the fault if there is one. Else
/// a truncated table is a fault, placed after the last line, in a strict
/// scan and one more dropped table in a lenient one; any other open table is
/// closed by the end of the text.
pub open spec fn outcome(st: ScanModel, lenient: bool) -> Result<
    SegmentationModel,
    MalformedReport,
> {
    match st.fault {
        Some(e) => Err(e),
        None => if truncated(st) {
            if lenient {
                Ok(
                    SegmentationModel {
                        blocks: st.blocks,
                        skipped_rows: st.skipped_rows,
                        skipped_blocks: st.skipped_blocks + 1,
                    },
                )
            } else {
                Err(MalformedReport { line: st.seen as usize, kind: FaultKind::TruncatedTable })
            }
        } else {
            let end = if st.in_table {
                close_table(st)
            } else {
                st
            };
            Ok(
                SegmentationModel {
                    blocks: end.blocks,
                    skipped_rows: end.skipped_rows,
                    skipped_blocks: end.skipped_blocks,
                },
            )
        },
    }
}

/// The segmentation of the report `content`.
pub open spec fn segmented(content: Seq<u8>, policy: Policy) -> Result<
    SegmentationModel,
    MalformedReport,
> {
    outcome(scan(lines(content), policy == Policy::Lenient), policy == Policy::Lenient)
}

/// The value of a scan's result.
pub open spec fn segmentation_view(r: Result<Segmentation, MalformedReport>) -> Result<
    SegmentationModel,
    MalformedReport,
> {
    match r {
        Ok(s) => Ok(s@),
        Err(e) => Err(e),
    }
}

impl Scanner {
    /// A scanner never counts more dropped rows and tables than lines, and
    /// fewer inside the table of a named query, whose header it did not drop.
    pub open spec fn wf(&self) -> bool {
        &&& self.skipped_rows + self.skipped_blocks <= self.seen
        &&& self.in_table && self.name.is_some() ==> self.skipped_rows + self.skipped_blocks
            < self.seen
    }

    /// The scanner before the first line.
    pub fn new() -> (r: Scanner)
        ensures
            r@ == initial(),
            r.wf(),
    {
        let r = Scanner {
            blocks: Vec::new(),
            name: None,
            in_table: false,
            rows: Vec::new(),
            skipped_rows: 0,
            skipped_blocks: 0,
            fault: None,
            seen: 0,
        };
        assert(block_views(r.blocks@) =~= Seq::<BlockModel>::empty());
        assert(byte_rows(r.rows@) =~= Seq::<Seq<u8>>::empty());
        r
    }

    /// Records the block under construction, if it has a name, and leaves the
    /// table.
    fn close(self) -> (r: Scanner)
        requires
            self.wf(),
        ensures
            r@ == close_table(self@),
            r.wf(),
    {
        let Scanner { blocks, name, in_table, rows, skipped_rows, skipped_blocks, fault, seen } =
            self;
        let mut blocks = blocks;
        let ghost before = block_views(blocks@);
        match &name {
            Some(n) => {
                let block = RawQueryBlock { name: slice_to_vec(n.as_slice()), raw_rows: rows };
                blocks.push(block);
                assert(block_views(blocks@) =~= before.push(block@));
            },
            None => {},
        }
        let r = Scanner {
            blocks,
            name,
            in_table: false,
            rows: Vec::new(),
            skipped_rows,
            skipped_blocks,
            fault,
            seen,
        };
        assert(byte_rows(r.rows@) =~= Seq::<Seq<u8>>::empty());
        r
    }

    /// Consumes one physical line, given without its terminator.
    pub fn scan_line(self, line: &[u8], policy: Policy) -> (r: Scanner)
        requires
            self.wf(),
            self.seen < usize::MAX,
        ensures
            r@ == step(self@, line@, policy == Policy::Lenient),
            r.wf(),
            r.seen <= self.seen + 1,
    {
        let lenient = match policy {
            Policy::Strict => false,
            Policy::Lenient => true,
        };
        if self.fault.is_some() {
            return self;
        }
        let mut st = self;
        let at: usize = st.seen;
        if line.len() == 0 {
            st.seen = at + 1;
            return st;
        }
        if st.in_table {
            if starts_with(line, hit_marker_bytes().as_slice()) {
                st.seen = at + 1;
                return st.close();
            }
            if st.name.is_none() {
                st.seen = at + 1;
                return st;
            }
            let fields = split_tokens(line);
            assert(byte_rows(fields@).len() == fields.len());
            if fields.len() >= ROW_FIELDS {
                let ghost before = byte_rows(st.rows@);
                st.rows.push(slice_to_vec(line));
                assert(byte_rows(st.rows@) =~= before.push(line@));
                st.seen = at + 1;
            } else if lenient {
                st.skipped_rows = st.skipped_rows + 1;
                st.seen = at + 1;
            } else {
                st.fault = Some(MalformedReport { line: at, kind: FaultKind::ShortRow });
            }
            return st;
        }
        if starts_with(line, query_marker_bytes().as_slice()) {
            let fields = split_tokens(line);
            assert(byte_rows(fields@).len() == fields.len());
            if fields.len() >= 2 {
                st.name = Some(slice_to_vec(fields[1].as_slice()));
                st.seen = at + 1;
            } else if lenient {
                st.name = None;
                st.seen = at + 1;
            } else {
                st.fault = Some(MalformedReport { line: at, kind: FaultKind::UnnamedQuery });
            }
            return st;
        }
        if starts_with(line, header_marker_bytes().as_slice()) {
            if st.name.is_some() {
                st.in_table = true;
                st.seen = at + 1;
            } else if lenient {
                st.in_table = true;
                st.skipped_blocks = st.skipped_blocks + 1;
                st.seen = at + 1;
            } else {
                st.fault = Some(MalformedReport { line: at, kind: FaultKind::HeaderBeforeQuery });
            }
            return st;
        }
        st.seen = at + 1;
        st
    }

    /// Ends the scan at the end of the text.
    pub fn finish(self, policy: Policy) -> (r: Result<Segmentation, MalformedReport>)
        requires
            self.wf(),
        ensures
            segmentation_view(r) == outcome(self@, policy == Policy::Lenient),
    {
        match self.fault {
            Some(e) => Err(e),
            None => {
                assert(byte_rows(self.rows@).len() == self.rows.len());
                if self.in_table && self.name.is_some() && self.rows.len() == 0 {
                    return match policy {
                        Policy::Lenient => Ok(
                            Segmentation {
                                blocks: self.blocks,
                                skipped_rows: self.skipped_rows,
                                skipped_blocks: self.skipped_blocks + 1,
                            },
                        ),
                        Policy::Strict => Err(
                            MalformedReport { line: self.seen, kind: FaultKind::TruncatedTable },
                        ),
                    };
                }
                let end = if self.in_table {
                    self.close()
                } else {
                    self
                };
                Ok(
                    Segmentation {
                        blocks: end.blocks,
                        skipped_rows: end.skipped_rows,
                        skipped_blocks: end.skipped_blocks,
                    },
                )
            },
        }
    }
}

/// Whether `row` is a row as the scanner records them: not empty, not
/// beginning with the hit marker, and with the tokens of a row.
pub open spec fn recorded_row(row: Seq<u8>) -> bool {
    row.len() > 0 && !has_prefix(row, hit_marker()) && tokens(row).len() >= ROW_FIELDS
}

/// What holds of the scanner after `n` lines: the names it holds are words,
/// the rows it holds are rows, it holds rows only inside a table of a named
/// query, it has consumed at most `n` lines and dropped at most as many rows
/// and tables as it consumed lines; a strict scan drops nothing, a lenient
/// one meets no fault, and a fault lies in the line after those consumed.
pub open spec fn sound(st: ScanModel, lenient: bool, n: int) -> bool {
    &&& forall|i: int| 0 <= i < st.blocks.len() ==> is_word((#[trigger] st.blocks[i]).name)
    &&& forall|i: int, j: int|
        0 <= i < st.blocks.len() && 0 <= j < st.blocks[i].rows.len() ==> recorded_row(
            #[trigger] st.blocks[i].rows[j],
        )
    &&& forall|j: int| 0 <= j < st.rows.len() ==> recorded_row(#[trigger] st.rows[j])
    &&& st.name.is_some() ==> is_word(st.name.unwrap())
    &&& st.rows.len() > 0 ==> st.in_table && st.name.is_some()
    &&& st.skipped_rows + st.skipped_blocks <= st.seen <= n
    &&& st.in_table && st.name.is_some() ==> st.skipped_rows + st.skipped_blocks < st.seen
    &&& !lenient ==> st.skipped_rows == 0 && st.skipped_blocks == 0
    &&& lenient ==> st.fault.is_none()
    &&& st.fault.is_some() ==> st.fault.unwrap().line == st.seen && st.seen < n
}

/// A step keeps the scanner sound.
pub proof fn lemma_step_sound(st: ScanModel, line: Seq<u8>, lenient: bool, n: int)
    requires
        sound(st, lenient, n),
        n < usize::MAX,
    ensures
        sound(step(st, line, lenient), lenient, n + 1),
{
    let after = step(st, line, lenient);
    lemma_tokens_are_words(line, 0);
    if st.fault.is_none() && line.len() > 0 {
        if st.in_table {
            if has_prefix(line, hit_marker()) {
                if st.name.is_some() {
                    let b = BlockModel { name: st.name.unwrap(), rows: st.rows };
                    assert(after.blocks == st.blocks.push(b));
                    assert forall|i: int| 0 <= i < after.blocks.len() implies is_word(
                        (#[trigger] after.blocks[i]).name,
                    ) by {
                        if i < st.blocks.len() {
                            assert(after.blocks[i] == st.blocks[i]);
                        }
                    }
                    assert forall|i: int, j: int|
                        0 <= i < after.blocks.len() && 0 <= j
                            < after.blocks[i].rows.len() implies recorded_row(
                        #[trigger] after.blocks[i].rows[j],
                    ) by {
                        if i < st.blocks.len() {
                            assert(after.blocks[i] == st.blocks[i]);
                        }
                    }
                }
            } else if st.name.is_some() && tokens(line).len() >= ROW_FIELDS {
                assert(after.rows == st.rows.push(line));
                assert forall|j: int| 0 <= j < after.rows.len() implies recorded_row(
                    #[trigger] after.rows[j],
                ) by {
                    if j < st.rows.len() {
                        assert(after.rows[j] == st.rows[j]);
                    }
                }
            }
        } else if has_prefix(line, query_marker()) {
            if tokens(line).len() >= 2 {
                assert(is_word(tokens(line)[1]));
            }
        }
    }
}

/// The scanner is sound after any lines.
pub proof fn lemma_scan_sound(all: Seq<Seq<u8>>, lenient: bool)
    requires
        all.len() <= usize::MAX,
    ensures
        sound(scan(all, lenient), lenient, all.len() as int),
    decreases all.len(),
{
    if all.len() > 0 {
        lemma_scan_sound(all.drop_last(), lenient);
        lemma_step_sound(scan(all.drop_last(), lenient), all.last(), lenient, all.len() - 1);
    }
}

/// Closing the table keeps the scanner sound.
pub proof fn lemma_close_sound(st: ScanModel, lenient: bool, n: int)
    requires
        sound(st, lenient, n),
    ensures
        sound(close_table(st), lenient, n),
{
    let after = close_table(st);
    if st.name.is_some() {
        assert forall|i: int| 0 <= i < after.blocks.len() implies is_word(
            (#[trigger] after.blocks[i]).name,
        ) by {
            if i < st.blocks.len() {
                assert(after.blocks[i] == st.blocks[i]);
            }
        }
        assert forall|i: int, j: int|
            0 <= i < after.blocks.len() && 0 <= j < after.blocks[i].rows.len() implies recorded_row(
            #[trigger] after.blocks[i].rows[j],
        ) by {
            if i < st.blocks.len() {
                assert(after.blocks[i] == st.blocks[i]);
            }
        }
    }
}

/// What holds of every segmentation of a text of at most `usize::MAX`
/// lines: a lenient one is no error and a strict one drops nothing; an error
/// names a line of the text or, for a truncated table, its end; every block
/// has a word for its name, and each of its rows is a recorded row.
pub proof fn lemma_segmented(content: Seq<u8>, policy: Policy)
    requires
        lines(content).len() <= usize::MAX,
    ensures
        policy == Policy::Lenient ==> segmented(content, policy).is_ok(),
        match segmented(content, policy) {
            Err(e) => e.line <= lines(content).len(),
            Ok(s) => {
                &&& policy == Policy::Strict ==> s.skipped_rows == 0 && s.skipped_blocks == 0
                &&& s.skipped_rows + s.skipped_blocks <= lines(content).len()
                &&& forall|i: int|
                    0 <= i < s.blocks.len() ==> is_word((#[trigger] s.blocks[i]).name)
                &&& forall|i: int, j: int|
                    0 <= i < s.blocks.len() && 0 <= j < s.blocks[i].rows.len() ==> recorded_row(
                        #[trigger] s.blocks[i].rows[j],
                    )
            },
        },
{
    let lenient = policy == Policy::Lenient;
    let st = scan(lines(content), lenient);
    lemma_scan_sound(lines(content), lenient);
    lemma_close_sound(st, lenient, lines(content).len() as int);
}

/// Segmenting is repeatable: two results of `segment` on one text under one
/// policy have the same value.
pub proof fn lemma_segment_is_repeatable(
    content: Seq<u8>,
    policy: Policy,
    first: Result<Segmentation, MalformedReport>,
    second: Result<Segmentation, MalformedReport>,
)
    requires
        segmentation_view(first) == segmented(content, policy),
        segmentation_view(second) == segmented(content, policy),
    ensures
        segmentation_view(first) == segmentation_view(second),
{
}

/// Cuts the report `content` into its per-query blocks.
///
/// The result is a function of the text and the policy alone. Under
/// `Policy::Strict` it is the error of the first fault, if the report has one;
/// under `Policy::Lenient` it is never an error.
pub fn segment(content: &[u8], policy: Policy) -> (r: Result<Segmentation, MalformedReport>)
    ensures
        segmentation_view(r) == segmented(content@, policy),
        policy == Policy::Lenient ==> r.is_ok(),
{
    let all = split_lines(content);
    let ghost rows = byte_rows(all@);
    let ghost lenient = policy == Policy::Lenient;
    let mut st = Scanner::new();
    let mut i: usize = 0;
    assert(rows.take(0) =~= Seq::<Seq<u8>>::empty());
    while i < all.len()
        invariant
            i <= all.len(),
            rows == byte_rows(all@),
            lenient == (policy == Policy::Lenient),
            st.wf(),
            st.seen <= i,
            st@ == scan(rows.take(i as int), lenient),
        decreases all.len() - i,
    {
        st = st.scan_line(all[i].as_slice(), policy);
        proof {
            assert(rows.take(i + 1).drop_last() =~= rows.take(i as int));
            assert(rows.take(i + 1).last() == all[i as int]@);
        }
        i += 1;
    }
    assert(rows.take(i as int) =~= rows);
    proof {
        assert(rows.len() == all.len());
        lemma_segmented(content@, policy);
    }
    st.finish(policy)
}

} // verus!

//! The written form of a report, and the laws that reading gives back what
//! was written.
//!
//! A block is written as its query line, the table header, its rows and the
//! hit marker, each on a line of its own; a row is written as its fields with
//! one space between each two. Nothing here is executable: the module states
//! what the segmenter and the decoder do on every report of this form.

use vstd::prelude::*;
use crate::decode::decoded;
use crate::decode::decoded_block;
use crate::decode::decoded_rows;
use crate::decode::DecodedBlockModel;
use crate::decode::HitFieldsModel;
use crate::decode::FieldParseErrorModel;
use crate::decode::E_VALUE_AT;
use crate::decode::SCORE_AT;
use crate::decode::SPECIES_COUNT_AT;
use crate::number::is_number;
use crate::report::decoded_blocks;
use crate::report::table_report;
use crate::report::ReportErrorModel;
use crate::report::TableReportModel;
use crate::segment::header_marker;
use crate::segment::hit_marker;
use crate::segment::query_marker;
use crate::segment::scan;
use crate::segment::segmented;
use crate::segment::step;
use crate::segment::BlockModel;
use crate::segment::MalformedReport;
use crate::segment::Policy;
use crate::segment::ScanModel;
use crate::segment::SegmentationModel;
use crate::segment::ROW_FIELDS;
use crate::text::has_prefix;
use crate::text::is_line;
use crate::text::is_space;
use crate::text::is_word;
use crate::text::joined_lines;
use crate::text::joined_words;
use crate::text::lemma_joined_words_bytes;
use crate::text::lemma_lines_of_joined_lines;
use crate::text::lemma_tokens_of_joined_words;
use crate::text::tokens;
use crate::text::unsigned_value;

verus! {

/// `Query=`, the query marker without its space.
pub open spec fn query_word() -> Seq<u8> {
    seq![81u8, 117u8, 101u8, 114u8, 121u8, 61u8]
}

/// The line that names the query `name`.
pub open spec fn query_line(name: Seq<u8>) -> Seq<u8> {
    query_marker() + name
}

/// Whether `row` can be written as a row of a hits table: it is one line,
/// not empty, does not begin with the hit marker, and has the tokens of a
/// row.
pub open spec fn is_row(row: Seq<u8>) -> bool {
    is_line(row) && row.len() > 0 && row[0] != 62 && tokens(row).len() >= ROW_FIELDS
}

/// Whether the block `b` can be written: its name is a word and its rows are
/// rows.
pub open spec fn writable(b: BlockModel) -> bool {
    is_word(b.name) && forall|i: int| 0 <= i < b.rows.len() ==> is_row(#[trigger] b.rows[i])
}

/// The lines of the block `b` up to its first `k` rows.
pub open spec fn open_block_lines(b: BlockModel, k: int) -> Seq<Seq<u8>> {
    seq![query_line(b.name), header_marker()] + b.rows.take(k)
}

/// The lines of the block `b`.
pub open spec fn block_lines(b: BlockModel) -> Seq<Seq<u8>> {
    open_block_lines(b, b.rows.len() as int).push(hit_marker())
}

/// The lines of the first `n` of `blocks`.
pub open spec fn report_lines(blocks: Seq<BlockModel>, n: int) -> Seq<Seq<u8>>
    decreases n,
{
    if n <= 0 {
        Seq::empty()
    } else {
        report_lines(blocks, n - 1) + block_lines(blocks[n - 1])
    }
}

/// The text of a report that holds `blocks`.
pub open spec fn report_text(blocks: Seq<BlockModel>) -> Seq<u8> {
    let all = report_lines(blocks, blocks.len() as int);
    joined_lines(all, all.len() as int)
}

/// Whether the scanner `st` is outside a table, has recorded `done` and has
/// met no fault and dropped nothing.
pub open spec fn resting(st: ScanModel, done: Seq<BlockModel>) -> bool {
    &&& st.blocks == done
    &&& !st.in_table
    &&& st.rows == Seq::<Seq<u8>>::empty()
    &&& st.fault.is_none()
    &&& st.skipped_rows == 0
    &&& st.skipped_blocks == 0
}

/// Whether the scanner `st` is inside the table of the query `name`, has
/// recorded `done` and collected `rows`, and has met no fault and dropped
/// nothing.
pub open spec fn collecting(st: ScanModel, done: Seq<BlockModel>, name: Seq<u8>, rows: Seq<Seq<u8>>) -> bool {
    &&& st.blocks == done
    &&& st.in_table
    &&& st.name == Some(name)
    &&& st.rows == rows
    &&& st.fault.is_none()
    &&& st.skipped_rows == 0
    &&& st.skipped_blocks == 0
}

/// Scanning one more line is one step from the scan of the lines before it.
pub proof fn lemma_scan_push(all: Seq<Seq<u8>>, line: Seq<u8>, lenient: bool)
    ensures
        scan(all.push(line), lenient) == step(scan(all, lenient), line, lenient),
{
    assert(all.push(line).drop_last() =~= all);
}

/// The markers are lines, and only the query line begins with the query
/// marker.
pub proof fn lemma_markers()
    ensures
        is_line(header_marker()),
        is_line(hit_marker()),
        is_line(query_marker()),
        is_word(query_word()),
        !has_prefix(header_marker(), query_marker()),
        has_prefix(header_marker(), header_marker()),
        has_prefix(hit_marker(), hit_marker()),
        query_marker() == query_word() + seq![32u8],
{
    assert(header_marker().subrange(0, 7)[0] == 83u8);
    assert(header_marker().subrange(0, 31) =~= header_marker());
    assert(hit_marker().subrange(0, 1) =~= hit_marker());
    assert(query_marker() =~= query_word() + seq![32u8]);
}

/// The query line of a word begins with the query marker, is one line, and
/// has the word as its second token.
pub proof fn lemma_query_line(name: Seq<u8>)
    requires
        is_word(name),
    ensures
        query_line(name).len() > 0,
        is_line(query_line(name)),
        has_prefix(query_line(name), query_marker()),
        tokens(query_line(name)).len() == 2,
        tokens(query_line(name))[1] == name,
{
    lemma_markers();
    let q = query_line(name);
    let words = seq![query_word(), name];
    assert(words[0] == query_word());
    assert(words[1] == name);
    assert(joined_words(words, 1) == query_word());
    assert(joined_words(words, 2) == query_word() + seq![32u8] + name);
    assert(joined_words(words, 2) =~= q);
    lemma_tokens_of_joined_words(words, 2);
    assert(words.take(2) =~= words);
    assert(q.subrange(0, 7) =~= query_marker());
    assert forall|k: int| 0 <= k < q.len() implies #[trigger] q[k] != 10 by {
        if k >= 7 {
            assert(q[k] == name[k - 7]);
            assert(!is_space(name[k - 7]));
        } else {
            assert(q[k] == query_marker()[k]);
        }
    }
    assert(q[q.len() - 1] == name[name.len() - 1]);
    assert(!is_space(name[name.len() - 1]));
}

/// After the query line, the header and the first `k` rows of a writable
/// block, the scanner is collecting these rows.
pub proof fn lemma_scan_open_block(
    before: Seq<Seq<u8>>,
    done: Seq<BlockModel>,
    b: BlockModel,
    k: int,
    lenient: bool,
)
    requires
        resting(scan(before, lenient), done),
        writable(b),
        0 <= k <= b.rows.len(),
    ensures
        collecting(scan(before + open_block_lines(b, k), lenient), done, b.name, b.rows.take(k)),
    decreases k,
{
    lemma_markers();
    lemma_query_line(b.name);
    if k == 0 {
        let q = query_line(b.name);
        let h = header_marker();
        assert(before + open_block_lines(b, 0) =~= before.push(q).push(h));
        lemma_scan_push(before, q, lenient);
        lemma_scan_push(before.push(q), h, lenient);
        assert(b.rows.take(0) =~= Seq::<Seq<u8>>::empty());
    } else {
        lemma_scan_open_block(before, done, b, k - 1, lenient);
        let row = b.rows[k - 1];
        let so_far = before + open_block_lines(b, k - 1);
        assert(is_row(row));
        assert(before + open_block_lines(b, k) =~= so_far.push(row));
        lemma_scan_push(so_far, row, lenient);
        assert(row.subrange(0, 1)[0] == row[0]);
        assert(!has_prefix(row, hit_marker()));
        assert(b.rows.take(k - 1).push(row) =~= b.rows.take(k));
    }
}

/// After all lines of a writable block the scanner has recorded the block
/// and rests.
pub proof fn lemma_scan_block(
    before: Seq<Seq<u8>>,
    done: Seq<BlockModel>,
    b: BlockModel,
    lenient: bool,
)
    requires
        resting(scan(before, lenient), done),
        writable(b),
    ensures
        resting(scan(before + block_lines(b), lenient), done.push(b)),
{
    lemma_markers();
    let n = b.rows.len() as int;
    lemma_scan_open_block(before, done, b, n, lenient);
    let so_far = before + open_block_lines(b, n);
    assert(before + block_lines(b) =~= so_far.push(hit_marker()));
    lemma_scan_push(so_far, hit_marker(), lenient);
    assert(b.rows.take(n) =~= b.rows);
    assert(BlockModel { name: b.name, rows: b.rows } == b);
}

/// After the lines of writable blocks the scanner has recorded these blocks
/// and rests.
pub proof fn lemma_scan_report(blocks: Seq<BlockModel>, n: int, lenient: bool)
    requires
        0 <= n <= blocks.len(),
        forall|i: int| 0 <= i < n ==> writable(#[trigger] blocks[i]),
    ensures
        resting(scan(report_lines(blocks, n), lenient), blocks.take(n)),
    decreases n,
{
    if n == 0 {
        assert(blocks.take(0) =~= Seq::<BlockModel>::empty());
    } else {
        lemma_scan_report(blocks, n - 1, lenient);
        assert(writable(blocks[n - 1]));
        lemma_scan_block(report_lines(blocks, n - 1), blocks.take(n - 1), blocks[n - 1], lenient);
        assert(blocks.take(n - 1).push(blocks[n - 1]) =~= blocks.take(n));
    }
}

/// Every line of the written form of writable blocks is one line.
pub proof fn lemma_report_lines_are_lines(blocks: Seq<BlockModel>, n: int)
    requires
        0 <= n <= blocks.len(),
        forall|i: int| 0 <= i < n ==> writable(#[trigger] blocks[i]),
    ensures
        forall|i: int|
            0 <= i < report_lines(blocks, n).len() ==> is_line(#[trigger] report_lines(blocks, n)[i]),
    decreases n,
{
    if n > 0 {
        lemma_report_lines_are_lines(blocks, n - 1);
        lemma_markers();
        let b = blocks[n - 1];
        assert(writable(b));
        lemma_query_line(b.name);
        let before = report_lines(blocks, n - 1);
        let these = block_lines(b);
        assert forall|j: int| 0 <= j < these.len() implies is_line(#[trigger] these[j]) by {
            if j >= 2 && j < 2 + b.rows.len() {
                assert(these[j] == b.rows[j - 2]);
                assert(is_row(b.rows[j - 2]));
            }
        }
        assert forall|i: int| 0 <= i < report_lines(blocks, n).len() implies is_line(
            #[trigger] report_lines(blocks, n)[i],
        ) by {
            if i >= before.len() {
                assert(report_lines(blocks, n)[i] == these[i - before.len()]);
            } else {
                assert(report_lines(blocks, n)[i] == before[i]);
            }
        }
    }
}

/// Segmenting the written form of writable blocks gives back these blocks,
/// under either policy, with nothing dropped.
pub proof fn lemma_written_report_is_read_back(blocks: Seq<BlockModel>, policy: Policy)
    requires
        forall|i: int| 0 <= i < blocks.len() ==> writable(#[trigger] blocks[i]),
    ensures
        segmented(report_text(blocks), policy) == Ok::<SegmentationModel, MalformedReport>(
            SegmentationModel { blocks, skipped_rows: 0, skipped_blocks: 0 },
        ),
{
    let n = blocks.len() as int;
    let all = report_lines(blocks, n);
    lemma_report_lines_are_lines(blocks, n);
    lemma_lines_of_joined_lines(all, all.len() as int);
    assert(all.take(all.len() as int) =~= all);
    lemma_scan_report(blocks, n, policy == Policy::Lenient);
    assert(blocks.take(n) =~= blocks);
}

/// Decoding a row written from at least seven words, of which the fourth
/// spells the number `count` and the sixth and the seventh are written as
/// numbers, gives back the words at the places of the schema, and `count`.
pub proof fn lemma_written_row_is_decoded(fields: Seq<Seq<u8>>, count: u64)
    requires
        fields.len() >= ROW_FIELDS,
        forall|i: int| 0 <= i < fields.len() ==> is_word(#[trigger] fields[i]),
        unsigned_value(fields[SPECIES_COUNT_AT as int]) == Some(count),
        is_number(fields[SCORE_AT as int]),
        is_number(fields[E_VALUE_AT as int]),
    ensures
        tokens(joined_words(fields, fields.len() as int)) == fields,
        decoded(joined_words(fields, fields.len() as int)) == Ok::<
            HitFieldsModel,
            FieldParseErrorModel,
        >(
            HitFieldsModel {
                identifier: fields[0],
                category: fields[1],
                species_count: count,
                score: fields[SCORE_AT as int],
                e_value: fields[E_VALUE_AT as int],
            },
        ),
{
    lemma_tokens_of_joined_words(fields, fields.len() as int);
    assert(fields.take(fields.len() as int) =~= fields);
}

/// A row written from at least seven words, the first of which does not
/// begin with the hit marker, is a row.
pub proof fn lemma_written_row_is_row(fields: Seq<Seq<u8>>)
    requires
        fields.len() >= ROW_FIELDS,
        forall|i: int| 0 <= i < fields.len() ==> is_word(#[trigger] fields[i]),
        fields[0][0] != 62,
    ensures
        is_row(joined_words(fields, fields.len() as int)),
{
    let n = fields.len() as int;
    let row = joined_words(fields, n);
    lemma_joined_words_bytes(fields, n);
    lemma_tokens_of_joined_words(fields, n);
    assert(fields.take(n) =~= fields);
    assert(is_word(fields[n - 1]));
    assert(!is_space(row[row.len() - 1]));
    assert forall|k: int| 0 <= k < row.len() implies #[trigger] row[k] != 10 by {
        assert(row[k] == 32 || !is_space(row[k]));
    }
}

/// A block as it is known before it is written: its name, and each row as
/// its fields.
pub ghost struct KnownBlock {
    pub name: Seq<u8>,
    pub rows: Seq<Seq<Seq<u8>>>,
}

/// Whether `fields` can be written as a row that decodes: at least seven
/// words, the first not beginning with the hit marker, the fourth an
/// unsigned number, the sixth and the seventh written as numbers.
pub open spec fn is_known_row(fields: Seq<Seq<u8>>) -> bool {
    &&& fields.len() >= ROW_FIELDS
    &&& forall|i: int| 0 <= i < fields.len() ==> is_word(#[trigger] fields[i])
    &&& fields[0][0] != 62
    &&& unsigned_value(fields[SPECIES_COUNT_AT as int]).is_some()
    &&& is_number(fields[SCORE_AT as int])
    &&& is_number(fields[E_VALUE_AT as int])
}

/// Whether the block `b` can be written and decodes.
pub open spec fn is_known(b: KnownBlock) -> bool {
    is_word(b.name) && forall|i: int| 0 <= i < b.rows.len() ==> is_known_row(#[trigger] b.rows[i])
}

/// The row written from `fields`.
pub open spec fn row_text(fields: Seq<Seq<u8>>) -> Seq<u8> {
    joined_words(fields, fields.len() as int)
}

/// What decoding gives of a row written from `fields`.
pub open spec fn fields_of_row(fields: Seq<Seq<u8>>) -> HitFieldsModel {
    HitFieldsModel {
        identifier: fields[0],
        category: fields[1],
        species_count: unsigned_value(fields[SPECIES_COUNT_AT as int]).unwrap(),
        score: fields[SCORE_AT as int],
        e_value: fields[E_VALUE_AT as int],
    }
}

/// The block `b` with its rows written.
pub open spec fn written(b: KnownBlock) -> BlockModel {
    BlockModel { name: b.name, rows: Seq::new(b.rows.len(), |i: int| row_text(b.rows[i])) }
}

/// What reading gives of the block `b`.
pub open spec fn read_back(b: KnownBlock) -> DecodedBlockModel {
    DecodedBlockModel {
        name: b.name,
        hits: Seq::new(b.rows.len(), |i: int| fields_of_row(b.rows[i])),
        skipped_rows: 0,
    }
}

/// The blocks of `blocks` with their rows written.
pub open spec fn all_written(blocks: Seq<KnownBlock>) -> Seq<BlockModel> {
    Seq::new(blocks.len(), |i: int| written(blocks[i]))
}

/// What reading gives of the blocks of `blocks`.
pub open spec fn all_read_back(blocks: Seq<KnownBlock>) -> Seq<DecodedBlockModel> {
    Seq::new(blocks.len(), |i: int| read_back(blocks[i]))
}

/// The first `n` rows of a known block decode to their fields, and none is
/// dropped.
pub proof fn lemma_known_rows_are_decoded(b: KnownBlock, lenient: bool, n: int)
    requires
        is_known(b),
        0 <= n <= b.rows.len(),
    ensures
        decoded_rows(written(b).rows, lenient, n) == Ok::<
            (Seq<HitFieldsModel>, nat),
            FieldParseErrorModel,
        >((read_back(b).hits.take(n), 0)),
    decreases n,
{
    if n == 0 {
        assert(read_back(b).hits.take(0) =~= Seq::<HitFieldsModel>::empty());
    } else {
        lemma_known_rows_are_decoded(b, lenient, n - 1);
        let fields = b.rows[n - 1];
        assert(is_known_row(fields));
        lemma_written_row_is_decoded(
            fields,
            unsigned_value(fields[SPECIES_COUNT_AT as int]).unwrap(),
        );
        assert(written(b).rows[n - 1] == row_text(fields));
        assert(read_back(b).hits.take(n - 1).push(fields_of_row(fields)) =~= read_back(b).hits.take(
            n,
        ));
    }
}

/// The first `n` known blocks decode to what was known of them.
pub proof fn lemma_known_blocks_are_decoded(blocks: Seq<KnownBlock>, lenient: bool, n: int)
    requires
        forall|i: int| 0 <= i < blocks.len() ==> is_known(#[trigger] blocks[i]),
        0 <= n <= blocks.len(),
    ensures
        decoded_blocks(all_written(blocks), lenient, n) == Ok::<
            Seq<DecodedBlockModel>,
            FieldParseErrorModel,
        >(all_read_back(blocks).take(n)),
    decreases n,
{
    if n == 0 {
        assert(all_read_back(blocks).take(0) =~= Seq::<DecodedBlockModel>::empty());
    } else {
        lemma_known_blocks_are_decoded(blocks, lenient, n - 1);
        let b = blocks[n - 1];
        assert(is_known(b));
        lemma_known_rows_are_decoded(b, lenient, b.rows.len() as int);
        assert(read_back(b).hits.take(b.rows.len() as int) =~= read_back(b).hits);
        assert(all_written(blocks)[n - 1] == written(b));
        assert(decoded_block(written(b).name, written(b).rows, lenient) == Ok::<
            DecodedBlockModel,
            FieldParseErrorModel,
        >(read_back(b)));
        assert(all_read_back(blocks).take(n - 1).push(read_back(b)) =~= all_read_back(blocks).take(
            n,
        ));
    }
}

/// Reading the written form of known blocks gives back what was known:
/// every name, and of every row the identifier, the category, the species
/// count, and the score and the e-value as they were written; nothing is
/// dropped, under either policy.
pub proof fn lemma_known_report_is_read_back(blocks: Seq<KnownBlock>, policy: Policy)
    requires
        forall|i: int| 0 <= i < blocks.len() ==> is_known(#[trigger] blocks[i]),
    ensures
        table_report(report_text(all_written(blocks)), policy) == Ok::<
            TableReportModel,
            ReportErrorModel,
        >(
            TableReportModel {
                blocks: all_read_back(blocks),
                skipped_rows: 0,
                skipped_blocks: 0,
            },
        ),
{
    let out = all_written(blocks);
    assert forall|i: int| 0 <= i < out.len() implies writable(#[trigger] out[i]) by {
        let b = blocks[i];
        assert(is_known(b));
        assert forall|j: int| 0 <= j < out[i].rows.len() implies is_row(
            #[trigger] out[i].rows[j],
        ) by {
            assert(is_known_row(b.rows[j]));
            lemma_written_row_is_row(b.rows[j]);
        }
    }
    lemma_written_report_is_read_back(out, policy);
    lemma_known_blocks_are_decoded(blocks, policy == Policy::Lenient, blocks.len() as int);
    assert(all_read_back(blocks).take(blocks.len() as int) =~= all_read_back(blocks));
}

} // verus!

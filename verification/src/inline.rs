//! The inline dialect: reports in which every alignment carries its own
//! `Length=` line and a `Score = .., Expect = ..` line.
//!
//! A report is cut into query sections at the query marker, and a section
//! at the hit marker into its header and its alignments. The header gives
//! the query's name, its first token, and the query's length. An alignment
//! gives its description, the lines before its `Length` line, then its
//! length, and on the first line that begins with `Score` its score and its
//! e-value: the third token of the comma-separated part that begins with
//! `Score` and of the one that begins with `Expect`. A missing or unreadable
//! field is an error; none is given a default. The score and the e-value
//! must be written as numbers, and are handed on as they are written.
//!
//! Under `Policy::Strict` the first alignment that does not decode is the
//! error of its section; under `Policy::Lenient` it is dropped and counted.
//! A header that does not decode is the error of its section under either
//! policy.

use vstd::prelude::*;
use vstd::slice::slice_to_vec;
use crate::decode::Field;
use crate::decode::FieldParseError;
use crate::decode::FieldParseErrorModel;
use crate::measure::Real;
use crate::number::is_number;
use crate::number::is_number_text;
use crate::segment::hit_marker;
use crate::segment::Policy;
use crate::segment::query_marker;
use crate::text::append;
use crate::text::byte_rows;
use crate::text::bytes_eq;
use crate::text::has_prefix;
use crate::text::lines;
use crate::text::parse_unsigned;
use crate::text::pieces;
use crate::text::split_lines;
use crate::text::split_on;
use crate::text::split_tokens;
use crate::text::starts_with;
use crate::text::tokens;
use crate::text::trim;
use crate::text::trimmed;
use crate::text::unsigned_value;

verus! {

/// `Length`, which begins the line of a length.
pub open spec fn length_word() -> Seq<u8> {
    seq![76u8, 101u8, 110u8, 103u8, 116u8, 104u8]
}

/// `Length=`.
pub open spec fn length_marker() -> Seq<u8> {
    seq![76u8, 101u8, 110u8, 103u8, 116u8, 104u8, 61u8]
}

/// `Score`.
pub open spec fn score_word() -> Seq<u8> {
    seq![83u8, 99u8, 111u8, 114u8, 101u8]
}

/// `Expect`.
pub open spec fn expect_word() -> Seq<u8> {
    seq![69u8, 120u8, 112u8, 101u8, 99u8, 116u8]
}

/// `=`.
pub open spec fn equals_sign() -> Seq<u8> {
    seq![61u8]
}

/// `,`.
pub open spec fn comma() -> Seq<u8> {
    seq![44u8]
}

/// The name and the length of a query.
#[derive(Debug)]
pub struct QueryHeader {
    pub name: Vec<u8>,
    pub length: u64,
}

/// The value of a [`QueryHeader`].
pub ghost struct QueryHeaderModel {
    pub name: Seq<u8>,
    pub length: u64,
}

impl View for QueryHeader {
    type V = QueryHeaderModel;

    open spec fn view(&self) -> QueryHeaderModel {
        QueryHeaderModel { name: self.name@, length: self.length }
    }
}

/// The fields of one alignment, the two numbers still as text.
#[derive(Debug)]
pub struct AlignmentFields {
    pub info: Vec<u8>,
    pub length: u64,
    pub score: Vec<u8>,
    pub e_value: Vec<u8>,
}

/// The value of an [`AlignmentFields`].
pub ghost struct AlignmentModel {
    pub info: Seq<u8>,
    pub length: u64,
    pub score: Seq<u8>,
    pub e_value: Seq<u8>,
}

impl View for AlignmentFields {
    type V = AlignmentModel;

    open spec fn view(&self) -> AlignmentModel {
        AlignmentModel {
            info: self.info@,
            length: self.length,
            score: self.score@,
            e_value: self.e_value@,
        }
    }
}

/// The values of the alignments of `v`, in order.
pub open spec fn alignment_views(v: Seq<AlignmentFields>) -> Seq<AlignmentModel> {
    Seq::new(v.len(), |i: int| v[i]@)
}

/// One query section: its header and its alignments in report order.
#[derive(Debug)]
pub struct QuerySection {
    pub header: QueryHeader,
    pub alignments: Vec<AlignmentFields>,
    /// The alignments that did not decode and were dropped.
    pub skipped_alignments: usize,
}

/// The value of a [`QuerySection`].
pub ghost struct QuerySectionModel {
    pub header: QueryHeaderModel,
    pub alignments: Seq<AlignmentModel>,
    pub skipped_alignments: nat,
}

impl View for QuerySection {
    type V = QuerySectionModel;

    open spec fn view(&self) -> QuerySectionModel {
        QuerySectionModel {
            header: self.header@,
            alignments: alignment_views(self.alignments@),
            skipped_alignments: self.skipped_alignments as nat,
        }
    }
}

/// The error of a field that is missing.
pub open spec fn missing(field: Field) -> FieldParseErrorModel {
    FieldParseErrorModel { field, raw_value: Seq::empty() }
}

/// The length that the line `line` gives: the unsigned number between its
/// first and its second equals sign. The error holds the line if it has no
/// equals sign, else the text that is no number.
pub open spec fn length_of_line(line: Seq<u8>) -> Result<u64, FieldParseErrorModel> {
    let parts = pieces(line, equals_sign());
    if parts.len() < 2 {
        Err(FieldParseErrorModel { field: Field::Length, raw_value: line })
    } else {
        match unsigned_value(parts[1]) {
            Some(n) => Ok(n),
            None => Err(FieldParseErrorModel { field: Field::Length, raw_value: parts[1] }),
        }
    }
}

/// The length that the first `n` lines of a header give: that of the last
/// line that begins with `Length=`, and 0 if there is none. The first such
/// line that gives no length is the error.
pub open spec fn header_length(all: Seq<Seq<u8>>, n: int) -> Result<u64, FieldParseErrorModel>
    decreases n,
{
    if n <= 0 {
        Ok(0)
    } else {
        match header_length(all, n - 1) {
            Err(e) => Err(e),
            Ok(before) => if has_prefix(all[n - 1], length_marker()) {
                length_of_line(all[n - 1])
            } else {
                Ok(before)
            },
        }
    }
}

/// The header that the text `header` gives.
pub open spec fn header_of(header: Seq<u8>) -> Result<QueryHeaderModel, FieldParseErrorModel> {
    if tokens(header).len() == 0 {
        Err(missing(Field::Name))
    } else {
        match header_length(lines(header), lines(header).len() as int) {
            Err(e) => Err(e),
            Ok(length) => Ok(QueryHeaderModel { name: tokens(header)[0], length }),
        }
    }
}

/// The index of the first line at or after `from` that begins with `word`,
/// its leading whitespace passed over if `trim` is set; the number of lines
/// if there is none.
pub open spec fn first_line_with(all: Seq<Seq<u8>>, word: Seq<u8>, trim: bool, from: int) -> int
    decreases all.len() - from,
{
    if from < 0 || from >= all.len() {
        all.len() as int
    } else if has_prefix(
        if trim {
            trimmed(all[from])
        } else {
            all[from]
        },
        word,
    ) {
        from
    } else {
        first_line_with(all, word, trim, from + 1)
    }
}

/// The first `n` lines of `all`, each without the whitespace at its ends,
/// one after the other with nothing between them.
pub open spec fn joined_trimmed(all: Seq<Seq<u8>>, n: int) -> Seq<u8>
    decreases n,
{
    if n <= 0 {
        Seq::empty()
    } else {
        joined_trimmed(all, n - 1) + trimmed(all[n - 1])
    }
}

/// What the parts of a score line have given so far.
pub ghost struct ScoreParts {
    pub score: Option<Seq<u8>>,
    pub e_value: Option<Seq<u8>>,
    pub fault: Option<FieldParseErrorModel>,
}

/// The number that the part `part` gives for the field `field`: its third
/// token, which must be written as a number. The error holds the part if it
/// has fewer tokens, else the token.
pub open spec fn number_of_part(part: Seq<u8>, field: Field) -> Result<
    Seq<u8>,
    FieldParseErrorModel,
> {
    if tokens(part).len() < 3 {
        Err(FieldParseErrorModel { field, raw_value: part })
    } else if !is_number(tokens(part)[2]) {
        Err(FieldParseErrorModel { field, raw_value: tokens(part)[2] })
    } else {
        Ok(tokens(part)[2])
    }
}

/// What the parts have given after `part`: a part that begins with `Score`
/// gives the score and one that begins with `Expect` the e-value; such a
/// part that gives no number is a fault, and after a fault nothing changes.
pub open spec fn read_part(st: ScoreParts, part: Seq<u8>) -> ScoreParts {
    if st.fault.is_some() {
        st
    } else if has_prefix(trimmed(part), score_word()) {
        match number_of_part(part, Field::Score) {
            Ok(v) => ScoreParts { score: Some(v), ..st },
            Err(e) => ScoreParts { fault: Some(e), ..st },
        }
    } else if has_prefix(trimmed(part), expect_word()) {
        match number_of_part(part, Field::EValue) {
            Ok(v) => ScoreParts { e_value: Some(v), ..st },
            Err(e) => ScoreParts { fault: Some(e), ..st },
        }
    } else {
        st
    }
}

/// What the first `n` of `parts` give.
pub open spec fn read_parts(parts: Seq<Seq<u8>>, n: int) -> ScoreParts
    decreases n,
{
    if n <= 0 {
        ScoreParts { score: None, e_value: None, fault: None }
    } else {
        read_part(read_parts(parts, n - 1), parts[n - 1])
    }
}

/// The score and the e-value that the line `line` gives, in this order.
pub open spec fn score_line_fields(line: Seq<u8>) -> Result<
    (Seq<u8>, Seq<u8>),
    FieldParseErrorModel,
> {
    let parts = pieces(line, comma());
    let st = read_parts(parts, parts.len() as int);
    if st.fault.is_some() {
        Err(st.fault.unwrap())
    } else if st.score.is_none() {
        Err(FieldParseErrorModel { field: Field::Score, raw_value: line })
    } else if st.e_value.is_none() {
        Err(FieldParseErrorModel { field: Field::EValue, raw_value: line })
    } else {
        Ok((st.score.unwrap(), st.e_value.unwrap()))
    }
}

/// The fields that the text `text` of one alignment gives, or the first
/// field, in the order length, score, e-value, that is missing or unreadable.
pub open spec fn alignment_of(text: Seq<u8>) -> Result<AlignmentModel, FieldParseErrorModel> {
    let all = lines(text);
    let at = first_line_with(all, length_word(), false, 0);
    let score_at = first_line_with(all, score_word(), true, 0);
    if at >= all.len() {
        Err(missing(Field::Length))
    } else {
        match length_of_line(all[at]) {
            Err(e) => Err(e),
            Ok(length) => if score_at >= all.len() {
                Err(missing(Field::Score))
            } else {
                match score_line_fields(all[score_at]) {
                    Err(e) => Err(e),
                    Ok(pair) => Ok(
                        AlignmentModel {
                            info: joined_trimmed(all, at),
                            length,
                            score: pair.0,
                            e_value: pair.1,
                        },
                    ),
                }
            },
        }
    }
}

/// The alignments that the first `n` parts of a section give, the first
/// part, the header, left out, with the number of alignments dropped: an
/// alignment that does not decode is dropped if `lenient` is set, and else
/// the first such alignment is the error.
pub open spec fn alignments_of(parts: Seq<Seq<u8>>, lenient: bool, n: int) -> Result<
    (Seq<AlignmentModel>, nat),
    FieldParseErrorModel,
>
    decreases n,
{
    if n <= 1 {
        Ok((Seq::empty(), 0))
    } else {
        match alignments_of(parts, lenient, n - 1) {
            Err(e) => Err(e),
            Ok(before) => match alignment_of(parts[n - 1]) {
                Ok(a) => Ok((before.0.push(a), before.1)),
                Err(e) => if lenient {
                    Ok((before.0, before.1 + 1))
                } else {
                    Err(e)
                },
            },
        }
    }
}

/// What the query section `query` gives: its header, then its alignments.
pub open spec fn section_of(query: Seq<u8>, lenient: bool) -> Result<
    QuerySectionModel,
    FieldParseErrorModel,
> {
    let parts = pieces(query, hit_marker());
    match header_of(parts[0]) {
        Err(e) => Err(e),
        Ok(header) => match alignments_of(parts, lenient, parts.len() as int) {
            Err(e) => Err(e),
            Ok(pair) => Ok(
                QuerySectionModel { header, alignments: pair.0, skipped_alignments: pair.1 },
            ),
        },
    }
}

/// The value of a length that was read.
pub open spec fn length_view(r: Result<u64, FieldParseError>) -> Result<u64, FieldParseErrorModel> {
    match r {
        Ok(n) => Ok(n),
        Err(e) => Err(e@),
    }
}

/// The value of a header that was read.
pub open spec fn header_view(r: Result<QueryHeader, FieldParseError>) -> Result<
    QueryHeaderModel,
    FieldParseErrorModel,
> {
    match r {
        Ok(h) => Ok(h@),
        Err(e) => Err(e@),
    }
}

/// The value of a score line that was read.
pub open spec fn pair_view(r: Result<(Vec<u8>, Vec<u8>), FieldParseError>) -> Result<
    (Seq<u8>, Seq<u8>),
    FieldParseErrorModel,
> {
    match r {
        Ok(p) => Ok((p.0@, p.1@)),
        Err(e) => Err(e@),
    }
}

/// The value of an alignment that was read.
pub open spec fn alignment_view(r: Result<AlignmentFields, FieldParseError>) -> Result<
    AlignmentModel,
    FieldParseErrorModel,
> {
    match r {
        Ok(a) => Ok(a@),
        Err(e) => Err(e@),
    }
}

/// The value of a section that was read.
pub open spec fn section_view(r: Result<QuerySection, FieldParseError>) -> Result<
    QuerySectionModel,
    FieldParseErrorModel,
> {
    match r {
        Ok(s) => Ok(s@),
        Err(e) => Err(e@),
    }
}

/// Cuts a report into the text before the first query marker and the
/// sections of its queries, one after each marker, without the markers.
pub fn get_queries(content: &[u8]) -> (r: Vec<Vec<u8>>)
    ensures
        byte_rows(r@) == pieces(content@, query_marker()),
        r.len() >= 1,
{
    let marker: [u8; 7] = [81, 117, 101, 114, 121, 61, 32];
    assert(marker@ =~= query_marker());
    let r = split_on(content, marker.as_slice());
    assert(byte_rows(r@).len() == r.len());
    r
}

/// Reads the length that a line gives.
pub fn read_length(line: &[u8]) -> (r: Result<u64, FieldParseError>)
    ensures
        length_view(r) == length_of_line(line@),
{
    let sign: [u8; 1] = [61];
    assert(sign@ =~= equals_sign());
    let parts = split_on(line, sign.as_slice());
    assert(byte_rows(parts@).len() == parts.len());
    if parts.len() < 2 {
        return Err(FieldParseError { field: Field::Length, raw_value: slice_to_vec(line) });
    }
    assert(byte_rows(parts@)[1] == parts[1]@);
    match parse_unsigned(parts[1].as_slice()) {
        Some(n) => Ok(n),
        None => Err(
            FieldParseError { field: Field::Length, raw_value: slice_to_vec(parts[1].as_slice()) },
        ),
    }
}

/// Reads the header of a query section.
pub fn process_header(header: &[u8]) -> (r: Result<QueryHeader, FieldParseError>)
    ensures
        header_view(r) == header_of(header@),
{
    let words = split_tokens(header);
    assert(byte_rows(words@).len() == words.len());
    if words.len() == 0 {
        return Err(FieldParseError { field: Field::Name, raw_value: Vec::new() });
    }
    assert(byte_rows(words@)[0] == words[0]@);
    let marker: [u8; 7] = [76, 101, 110, 103, 116, 104, 61];
    assert(marker@ =~= length_marker());
    let all = split_lines(header);
    let ghost rows = byte_rows(all@);
    let mut length: u64 = 0;
    let mut i: usize = 0;
    while i < all.len()
        invariant
            i <= all.len(),
            rows == byte_rows(all@),
            rows == lines(header@),
            rows.len() == all.len(),
            tokens(header@).len() > 0,
            marker@ == length_marker(),
            header_length(rows, i as int) == Ok::<u64, FieldParseErrorModel>(length),
        decreases all.len() - i,
    {
        assert(rows[i as int] == all[i as int]@);
        if starts_with(all[i].as_slice(), marker.as_slice()) {
            match read_length(all[i].as_slice()) {
                Ok(n) => {
                    length = n;
                },
                Err(e) => {
                    proof {
                        lemma_header_length_fault(rows, i + 1, all.len() as int);
                    }
                    return Err(e);
                },
            }
        }
        i += 1;
    }
    Ok(QueryHeader { name: slice_to_vec(words[0].as_slice()), length })
}

/// Once the lines of a header give an error, more lines give the same error.
pub proof fn lemma_header_length_fault(all: Seq<Seq<u8>>, n: int, m: int)
    requires
        n <= m,
        header_length(all, n).is_err(),
    ensures
        header_length(all, m) == header_length(all, n),
    decreases m - n,
{
    if n < m {
        lemma_header_length_fault(all, n, m - 1);
    }
}

/// Finds the first line that begins with `word`, its leading whitespace
/// passed over if `trim_first` is set.
pub fn find_line(all: &Vec<Vec<u8>>, word: &[u8], trim_first: bool) -> (r: usize)
    ensures
        r == first_line_with(byte_rows(all@), word@, trim_first, 0),
        r <= all.len(),
{
    let ghost rows = byte_rows(all@);
    let mut i: usize = 0;
    while i < all.len()
        invariant
            i <= all.len(),
            rows == byte_rows(all@),
            first_line_with(rows, word@, trim_first, 0) == first_line_with(
                rows,
                word@,
                trim_first,
                i as int,
            ),
        decreases all.len() - i,
    {
        assert(rows[i as int] == all[i as int]@);
        let found = if trim_first {
            starts_with(trim(all[i].as_slice()), word)
        } else {
            starts_with(all[i].as_slice(), word)
        };
        if found {
            return i;
        }
        i += 1;
    }
    i
}

/// Reads the number that one part of a score line gives for `field`.
pub fn read_number_of_part(part: &[u8], field: Field) -> (r: Result<Vec<u8>, FieldParseError>)
    ensures
        match r {
            Ok(v) => number_of_part(part@, field) == Ok::<Seq<u8>, FieldParseErrorModel>(v@),
            Err(e) => number_of_part(part@, field) == Err::<Seq<u8>, FieldParseErrorModel>(e@),
        },
{
    let words = split_tokens(part);
    assert(byte_rows(words@).len() == words.len());
    if words.len() < 3 {
        return Err(FieldParseError { field, raw_value: slice_to_vec(part) });
    }
    assert(byte_rows(words@)[2] == words[2]@);
    if !is_number_text(words[2].as_slice()) {
        return Err(FieldParseError { field, raw_value: slice_to_vec(words[2].as_slice()) });
    }
    Ok(slice_to_vec(words[2].as_slice()))
}

/// Reads the score and the e-value that a score line gives.
pub fn read_score_line(line: &[u8]) -> (r: Result<(Vec<u8>, Vec<u8>), FieldParseError>)
    ensures
        pair_view(r) == score_line_fields(line@),
{
    let sep: [u8; 1] = [44];
    assert(sep@ =~= comma());
    let score_w: [u8; 5] = [83, 99, 111, 114, 101];
    assert(score_w@ =~= score_word());
    let expect_w: [u8; 6] = [69, 120, 112, 101, 99, 116];
    assert(expect_w@ =~= expect_word());
    let parts = split_on(line, sep.as_slice());
    let ghost rows = byte_rows(parts@);
    let mut score: Option<Vec<u8>> = None;
    let mut e_value: Option<Vec<u8>> = None;
    let mut i: usize = 0;
    while i < parts.len()
        invariant
            i <= parts.len(),
            rows == byte_rows(parts@),
            rows == pieces(line@, comma()),
            rows.len() == parts.len(),
            score_w@ == score_word(),
            expect_w@ == expect_word(),
            read_parts(rows, i as int).fault.is_none(),
            read_parts(rows, i as int).score == match score {
                Some(v) => Some(v@),
                None => None,
            },
            read_parts(rows, i as int).e_value == match e_value {
                Some(v) => Some(v@),
                None => None,
            },
        decreases parts.len() - i,
    {
        assert(rows[i as int] == parts[i as int]@);
        let part = parts[i].as_slice();
        let body = trim(part);
        if starts_with(body, score_w.as_slice()) {
            match read_number_of_part(part, Field::Score) {
                Ok(v) => {
                    score = Some(v);
                },
                Err(e) => {
                    proof {
                        lemma_read_parts_fault(rows, i + 1, parts.len() as int);
                    }
                    return Err(e);
                },
            }
        } else if starts_with(body, expect_w.as_slice()) {
            match read_number_of_part(part, Field::EValue) {
                Ok(v) => {
                    e_value = Some(v);
                },
                Err(e) => {
                    proof {
                        lemma_read_parts_fault(rows, i + 1, parts.len() as int);
                    }
                    return Err(e);
                },
            }
        }
        i += 1;
    }
    assert(rows.len() == parts.len());
    match score {
        None => Err(FieldParseError { field: Field::Score, raw_value: slice_to_vec(line) }),
        Some(s) => match e_value {
            None => Err(FieldParseError { field: Field::EValue, raw_value: slice_to_vec(line) }),
            Some(e) => Ok((s, e)),
        },
    }
}

/// Once the parts of a score line hold a fault, more parts change nothing.
pub proof fn lemma_read_parts_fault(parts: Seq<Seq<u8>>, n: int, m: int)
    requires
        n <= m,
        read_parts(parts, n).fault.is_some(),
    ensures
        read_parts(parts, m) == read_parts(parts, n),
    decreases m - n,
{
    if n < m {
        lemma_read_parts_fault(parts, n, m - 1);
    }
}

/// Reads the fields of one alignment.
pub fn decode_alignment(text: &[u8]) -> (r: Result<AlignmentFields, FieldParseError>)
    ensures
        alignment_view(r) == alignment_of(text@),
{
    let length_w: [u8; 6] = [76, 101, 110, 103, 116, 104];
    assert(length_w@ =~= length_word());
    let score_w: [u8; 5] = [83, 99, 111, 114, 101];
    assert(score_w@ =~= score_word());
    let all = split_lines(text);
    let ghost rows = byte_rows(all@);
    assert(rows.len() == all.len());
    let at = find_line(&all, length_w.as_slice(), false);
    if at >= all.len() {
        return Err(FieldParseError { field: Field::Length, raw_value: Vec::new() });
    }
    assert(rows[at as int] == all[at as int]@);
    let length = match read_length(all[at].as_slice()) {
        Ok(n) => n,
        Err(e) => {
            return Err(e);
        },
    };
    let score_at = find_line(&all, score_w.as_slice(), true);
    if score_at >= all.len() {
        return Err(FieldParseError { field: Field::Score, raw_value: Vec::new() });
    }
    assert(rows[score_at as int] == all[score_at as int]@);
    let pair = match read_score_line(all[score_at].as_slice()) {
        Ok(p) => p,
        Err(e) => {
            return Err(e);
        },
    };
    let mut info: Vec<u8> = Vec::new();
    let mut i: usize = 0;
    assert(info@ =~= joined_trimmed(rows, 0));
    while i < at
        invariant
            i <= at < all.len(),
            rows == byte_rows(all@),
            info@ == joined_trimmed(rows, i as int),
        decreases at - i,
    {
        assert(rows[i as int] == all[i as int]@);
        append(&mut info, trim(all[i].as_slice()));
        i += 1;
    }
    Ok(AlignmentFields { info, length, score: pair.0, e_value: pair.1 })
}

/// Once the parts of a section give an error, more parts give the same error.
pub proof fn lemma_alignments_fault(parts: Seq<Seq<u8>>, lenient: bool, n: int, m: int)
    requires
        n <= m,
        alignments_of(parts, lenient, n).is_err(),
    ensures
        alignments_of(parts, lenient, m) == alignments_of(parts, lenient, n),
    decreases m - n,
{
    if n < m {
        lemma_alignments_fault(parts, lenient, n, m - 1);
    }
}

/// Reads one query section: its header, then each of its alignments.
pub fn process(query: &[u8], policy: Policy) -> (r: Result<QuerySection, FieldParseError>)
    ensures
        section_view(r) == section_of(query@, policy == Policy::Lenient),
{
    let sep: [u8; 1] = [62];
    assert(sep@ =~= hit_marker());
    let parts = split_on(query, sep.as_slice());
    let ghost rows = byte_rows(parts@);
    let ghost lenient = policy == Policy::Lenient;
    assert(rows.len() == parts.len());
    assert(parts.len() >= 1);
    assert(rows[0] == parts[0]@);
    let header = match process_header(parts[0].as_slice()) {
        Ok(h) => h,
        Err(e) => {
            return Err(e);
        },
    };
    let mut alignments: Vec<AlignmentFields> = Vec::new();
    let mut skipped_alignments: usize = 0;
    let mut i: usize = 1;
    assert(alignment_views(alignments@) =~= Seq::<AlignmentModel>::empty());
    while i < parts.len()
        invariant
            1 <= i <= parts.len(),
            rows == byte_rows(parts@),
            rows == pieces(query@, hit_marker()),
            rows.len() == parts.len(),
            lenient == (policy == Policy::Lenient),
            skipped_alignments < i,
            header_of(rows[0]) == Ok::<QueryHeaderModel, FieldParseErrorModel>(header@),
            alignments_of(rows, lenient, i as int) == Ok::<
                (Seq<AlignmentModel>, nat),
                FieldParseErrorModel,
            >((alignment_views(alignments@), skipped_alignments as nat)),
        decreases parts.len() - i,
    {
        assert(rows[i as int] == parts[i as int]@);
        match decode_alignment(parts[i].as_slice()) {
            Ok(a) => {
                let ghost before = alignment_views(alignments@);
                alignments.push(a);
                assert(alignment_views(alignments@) =~= before.push(a@));
            },
            Err(e) => {
                match policy {
                    Policy::Lenient => {
                        skipped_alignments = skipped_alignments + 1;
                    },
                    Policy::Strict => {
                        proof {
                            lemma_alignments_fault(rows, lenient, i + 1, parts.len() as int);
                        }
                        return Err(e);
                    },
                }
            },
        }
        i += 1;
    }
    Ok(QuerySection { header, alignments, skipped_alignments })
}

/// One alignment with its numbers and the query it belongs to.
#[derive(Debug)]
pub struct Alignment {
    pub info: Vec<u8>,
    pub score: Real,
    pub e_value: Real,
    pub length: u64,
    pub origin: QueryHeader,
}

/// The value of an [`Alignment`].
pub ghost struct AlignmentValue {
    pub info: Seq<u8>,
    pub score: Real,
    pub e_value: Real,
    pub length: u64,
    pub origin: QueryHeaderModel,
}

impl View for Alignment {
    type V = AlignmentValue;

    open spec fn view(&self) -> AlignmentValue {
        AlignmentValue {
            info: self.info@,
            score: self.score,
            e_value: self.e_value,
            length: self.length,
            origin: self.origin@,
        }
    }
}

/// The values of the alignments of `v`, in order.
pub open spec fn alignment_values(v: Seq<Alignment>) -> Seq<AlignmentValue> {
    Seq::new(v.len(), |i: int| v[i]@)
}

/// The number of alignments among the first `n` of `items` whose query has
/// the name `name`.
pub open spec fn count_of_query(items: Seq<AlignmentValue>, name: Seq<u8>, n: int) -> nat
    decreases n,
{
    if n <= 0 {
        0
    } else if items[n - 1].origin.name == name {
        count_of_query(items, name, n - 1) + 1
    } else {
        count_of_query(items, name, n - 1)
    }
}

/// The first `n` of `items` with at most `keep` alignments of each query:
/// an alignment stays while fewer than `keep` alignments of its query stay
/// before it. The order is kept.
pub open spec fn top_kept(items: Seq<AlignmentValue>, keep: nat, n: int) -> Seq<AlignmentValue>
    decreases n,
{
    if n <= 0 {
        Seq::empty()
    } else {
        let before = top_kept(items, keep, n - 1);
        if count_of_query(before, items[n - 1].origin.name, before.len() as int) < keep {
            before.push(items[n - 1])
        } else {
            before
        }
    }
}

/// Of no query more than `keep` alignments stay, and none is added.
pub proof fn lemma_top_kept(items: Seq<AlignmentValue>, keep: nat, n: int, name: Seq<u8>)
    requires
        0 <= n <= items.len(),
    ensures
        top_kept(items, keep, n).len() <= n,
        count_of_query(top_kept(items, keep, n), name, top_kept(items, keep, n).len() as int)
            <= keep,
        count_of_query(top_kept(items, keep, n), name, top_kept(items, keep, n).len() as int)
            <= count_of_query(items, name, n),
    decreases n,
{
    if n > 0 {
        lemma_top_kept(items, keep, n - 1, name);
        let before = top_kept(items, keep, n - 1);
        let x = items[n - 1];
        if count_of_query(before, x.origin.name, before.len() as int) < keep {
            let after = before.push(x);
            lemma_count_of_prefix(after, before, name, before.len() as int);
        }
    }
}

/// Two sequences that agree on their first `n` items count alike there.
pub proof fn lemma_count_of_prefix(
    a: Seq<AlignmentValue>,
    b: Seq<AlignmentValue>,
    name: Seq<u8>,
    n: int,
)
    requires
        0 <= n <= a.len(),
        n <= b.len(),
        forall|i: int| 0 <= i < n ==> a[i] == b[i],
    ensures
        count_of_query(a, name, n) == count_of_query(b, name, n),
    decreases n,
{
    if n > 0 {
        lemma_count_of_prefix(a, b, name, n - 1);
    }
}

impl QueryHeader {
    /// A copy of the header.
    pub fn duplicate(&self) -> (r: QueryHeader)
        ensures
            r@ == self@,
    {
        QueryHeader { name: slice_to_vec(self.name.as_slice()), length: self.length }
    }
}

impl Alignment {
    /// A copy of the alignment.
    pub fn duplicate(&self) -> (r: Alignment)
        ensures
            r@ == self@,
    {
        Alignment {
            info: slice_to_vec(self.info.as_slice()),
            score: self.score,
            e_value: self.e_value,
            length: self.length,
            origin: self.origin.duplicate(),
        }
    }
}

impl AlignmentFields {
    /// The alignment of the query `origin` with these fields and the two
    /// numbers that its texts spell.
    pub fn into_alignment(self, score: Real, e_value: Real, origin: &QueryHeader) -> (r: Alignment)
        ensures
            r@ == (AlignmentValue {
                info: self.info@,
                score,
                e_value,
                length: self.length,
                origin: origin@,
            }),
    {
        Alignment {
            info: self.info,
            score,
            e_value,
            length: self.length,
            origin: origin.duplicate(),
        }
    }
}

/// Keeps of each query its first `keep_num` alignments, in order.
pub fn keep_top(to_filter: &[Alignment], keep_num: usize) -> (r: Vec<Alignment>)
    ensures
        alignment_values(r@) == top_kept(
            alignment_values(to_filter@),
            keep_num as nat,
            to_filter.len() as int,
        ),
{
    let ghost items = alignment_values(to_filter@);
    let mut out: Vec<Alignment> = Vec::new();
    let mut i: usize = 0;
    assert(alignment_values(out@) =~= top_kept(items, keep_num as nat, 0));
    while i < to_filter.len()
        invariant
            i <= to_filter.len(),
            items == alignment_values(to_filter@),
            out.len() <= i,
            alignment_values(out@) == top_kept(items, keep_num as nat, i as int),
        decreases to_filter.len() - i,
    {
        let ghost kept = alignment_values(out@);
        let ghost name = items[i as int].origin.name;
        assert(items[i as int] == to_filter[i as int]@);
        let mut count: usize = 0;
        let mut j: usize = 0;
        while j < out.len()
            invariant
                j <= out.len(),
                out.len() <= i < to_filter.len(),
                kept == alignment_values(out@),
                name == to_filter[i as int]@.origin.name,
                count <= j,
                count == count_of_query(kept, name, j as int),
            decreases out.len() - j,
        {
            assert(kept[j as int] == out[j as int]@);
            if bytes_eq(out[j].origin.name.as_slice(), to_filter[i].origin.name.as_slice()) {
                count += 1;
            }
            j += 1;
        }
        assert(kept.len() == out.len());
        if count < keep_num {
            out.push(to_filter[i].duplicate());
            assert(alignment_values(out@) =~= kept.push(items[i as int]));
        }
        i += 1;
    }
    out
}

} // verus!

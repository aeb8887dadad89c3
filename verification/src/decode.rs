//! The field decoder for rows of a hits table.
//!
//! A row is read as whitespace-separated tokens. The schema is fixed by
//! position: token 0 is the identifier, token 1 the category, token 3 the
//! species count, token 5 the score and token 6 the e-value; tokens 2 and 4
//! are passed over. The species count is an unsigned decimal number. The
//! score and the e-value must be written as numbers, and are handed on as
//! they are written.
//!
//! A row that does not decode is fatal for that row. Under `Policy::Strict`
//! the first such row of a block is the error of the block; under
//! `Policy::Lenient` the row is dropped and counted.

use vstd::prelude::*;
use vstd::slice::slice_to_vec;
use crate::measure::Real;
use crate::number::is_number;
use crate::number::is_number_text;
use crate::segment::Policy;
use crate::segment::RawQueryBlock;
use crate::segment::ROW_FIELDS;
use crate::stats::Hit;
use crate::stats::HitModel;
use crate::text::byte_rows;
use crate::text::parse_unsigned;
use crate::text::split_tokens;
use crate::text::tokens;
use crate::text::unsigned_value;

verus! {

/// The token that holds the identifier.
pub const IDENTIFIER_AT: usize = 0;

/// The token that holds the category.
pub const CATEGORY_AT: usize = 1;

/// The token that holds the species count.
pub const SPECIES_COUNT_AT: usize = 3;

/// The token that holds the score.
pub const SCORE_AT: usize = 5;

/// The token that holds the e-value.
pub const E_VALUE_AT: usize = 6;

/// What of a row can fail to decode.
#[derive(Clone, Copy, Debug, PartialEq, Eq, Structural)]
pub enum Field {
    /// The row as a whole: it has too few tokens.
    Row,
    SpeciesCount,
    Score,
    EValue,
    /// The name of a query.
    Name,
    /// The length of a query or of an aligned sequence.
    Length,
}

/// A field that does not decode, with its text.
#[derive(Debug)]
pub struct FieldParseError {
    pub field: Field,
    pub raw_value: Vec<u8>,
}

/// The value of a [`FieldParseError`].
pub ghost struct FieldParseErrorModel {
    pub field: Field,
    pub raw_value: Seq<u8>,
}

impl View for FieldParseError {
    type V = FieldParseErrorModel;

    open spec fn view(&self) -> FieldParseErrorModel {
        FieldParseErrorModel { field: self.field, raw_value: self.raw_value@ }
    }
}

/// The fields of a row, the two numbers still as text.
#[derive(Debug)]
pub struct HitFields {
    pub identifier: Vec<u8>,
    pub category: Vec<u8>,
    pub species_count: u64,
    pub score: Vec<u8>,
    pub e_value: Vec<u8>,
}

/// The value of a [`HitFields`].
pub ghost struct HitFieldsModel {
    pub identifier: Seq<u8>,
    pub category: Seq<u8>,
    pub species_count: u64,
    pub score: Seq<u8>,
    pub e_value: Seq<u8>,
}

impl View for HitFields {
    type V = HitFieldsModel;

    open spec fn view(&self) -> HitFieldsModel {
        HitFieldsModel {
            identifier: self.identifier@,
            category: self.category@,
            species_count: self.species_count,
            score: self.score@,
            e_value: self.e_value@,
        }
    }
}

/// The fields of the row `row`, or the first field that does not decode:
/// the row itself if it is short, else the species count, the score or the
/// e-value, in this order.
pub open spec fn decoded(row: Seq<u8>) -> Result<HitFieldsModel, FieldParseErrorModel> {
    let t = tokens(row);
    if t.len() < ROW_FIELDS {
        Err(FieldParseErrorModel { field: Field::Row, raw_value: row })
    } else {
        match unsigned_value(t[SPECIES_COUNT_AT as int]) {
            None => Err(
                FieldParseErrorModel {
                    field: Field::SpeciesCount,
                    raw_value: t[SPECIES_COUNT_AT as int],
                },
            ),
            Some(n) => if !is_number(t[SCORE_AT as int]) {
                Err(FieldParseErrorModel { field: Field::Score, raw_value: t[SCORE_AT as int] })
            } else if !is_number(t[E_VALUE_AT as int]) {
                Err(FieldParseErrorModel { field: Field::EValue, raw_value: t[E_VALUE_AT as int] })
            } else {
                Ok(
                    HitFieldsModel {
                        identifier: t[IDENTIFIER_AT as int],
                        category: t[CATEGORY_AT as int],
                        species_count: n,
                        score: t[SCORE_AT as int],
                        e_value: t[E_VALUE_AT as int],
                    },
                )
            },
        }
    }
}

/// The value of a decoder's result.
pub open spec fn decode_view(r: Result<HitFields, FieldParseError>) -> Result<
    HitFieldsModel,
    FieldParseErrorModel,
> {
    match r {
        Ok(f) => Ok(f@),
        Err(e) => Err(e@),
    }
}

/// Decodes one row of a hits table.
pub fn decode(raw_row: &[u8]) -> (r: Result<HitFields, FieldParseError>)
    ensures
        decode_view(r) == decoded(raw_row@),
{
    let t = split_tokens(raw_row);
    assert(byte_rows(t@).len() == t.len());
    if t.len() < ROW_FIELDS {
        return Err(FieldParseError { field: Field::Row, raw_value: slice_to_vec(raw_row) });
    }
    assert(byte_rows(t@)[SPECIES_COUNT_AT as int] == t[SPECIES_COUNT_AT as int]@);
    assert(byte_rows(t@)[IDENTIFIER_AT as int] == t[IDENTIFIER_AT as int]@);
    assert(byte_rows(t@)[CATEGORY_AT as int] == t[CATEGORY_AT as int]@);
    assert(byte_rows(t@)[SCORE_AT as int] == t[SCORE_AT as int]@);
    assert(byte_rows(t@)[E_VALUE_AT as int] == t[E_VALUE_AT as int]@);
    match parse_unsigned(t[SPECIES_COUNT_AT].as_slice()) {
        None => Err(
            FieldParseError {
                field: Field::SpeciesCount,
                raw_value: slice_to_vec(t[SPECIES_COUNT_AT].as_slice()),
            },
        ),
        Some(n) => if !is_number_text(t[SCORE_AT].as_slice()) {
            Err(
                FieldParseError {
                    field: Field::Score,
                    raw_value: slice_to_vec(t[SCORE_AT].as_slice()),
                },
            )
        } else if !is_number_text(t[E_VALUE_AT].as_slice()) {
            Err(
                FieldParseError {
                    field: Field::EValue,
                    raw_value: slice_to_vec(t[E_VALUE_AT].as_slice()),
                },
            )
        } else {
            Ok(
                HitFields {
                    identifier: slice_to_vec(t[IDENTIFIER_AT].as_slice()),
                    category: slice_to_vec(t[CATEGORY_AT].as_slice()),
                    species_count: n,
                    score: slice_to_vec(t[SCORE_AT].as_slice()),
                    e_value: slice_to_vec(t[E_VALUE_AT].as_slice()),
                },
            )
        },
    }
}

impl HitFields {
    /// The hit with these fields and the two numbers that its texts spell.
    pub fn into_hit(self, score: Real, e_value: Real) -> (r: Hit)
        ensures
            r@ == (HitModel {
                identifier: self.identifier@,
                category: self.category@,
                species_count: self.species_count,
                score,
                e_value,
            }),
    {
        Hit {
            identifier: self.identifier,
            category: self.category,
            species_count: self.species_count,
            score,
            e_value,
        }
    }
}

/// The values of the fields of `v`, in order.
pub open spec fn fields_views(v: Seq<HitFields>) -> Seq<HitFieldsModel> {
    Seq::new(v.len(), |i: int| v[i]@)
}

/// The rows of one block, decoded.
#[derive(Debug)]
pub struct DecodedBlock {
    pub name: Vec<u8>,
    pub hits: Vec<HitFields>,
    /// The rows that did not decode and were dropped.
    pub skipped_rows: usize,
}

/// The value of a [`DecodedBlock`].
pub ghost struct DecodedBlockModel {
    pub name: Seq<u8>,
    pub hits: Seq<HitFieldsModel>,
    pub skipped_rows: nat,
}

impl View for DecodedBlock {
    type V = DecodedBlockModel;

    open spec fn view(&self) -> DecodedBlockModel {
        DecodedBlockModel {
            name: self.name@,
            hits: fields_views(self.hits@),
            skipped_rows: self.skipped_rows as nat,
        }
    }
}

/// The first `n` of `rows`, decoded in order, with the number of rows
/// dropped: a row that does not decode is dropped if `lenient` is set, and
/// else the first such row is the error.
pub open spec fn decoded_rows(rows: Seq<Seq<u8>>, lenient: bool, n: int) -> Result<
    (Seq<HitFieldsModel>, nat),
    FieldParseErrorModel,
>
    decreases n,
{
    if n <= 0 {
        Ok((Seq::empty(), 0))
    } else {
        match decoded_rows(rows, lenient, n - 1) {
            Err(e) => Err(e),
            Ok(before) => match decoded(rows[n - 1]) {
                Ok(f) => Ok((before.0.push(f), before.1)),
                Err(e) => if lenient {
                    Ok((before.0, before.1 + 1))
                } else {
                    Err(e)
                },
            },
        }
    }
}

/// The block with the name `name` and the rows `rows`, decoded.
pub open spec fn decoded_block(name: Seq<u8>, rows: Seq<Seq<u8>>, lenient: bool) -> Result<
    DecodedBlockModel,
    FieldParseErrorModel,
> {
    match decoded_rows(rows, lenient, rows.len() as int) {
        Err(e) => Err(e),
        Ok(pair) => Ok(DecodedBlockModel { name, hits: pair.0, skipped_rows: pair.1 }),
    }
}

/// The value of a decoded block or its error.
pub open spec fn decoded_block_view(r: Result<DecodedBlock, FieldParseError>) -> Result<
    DecodedBlockModel,
    FieldParseErrorModel,
> {
    match r {
        Ok(b) => Ok(b@),
        Err(e) => Err(e@),
    }
}

/// Once the rows give an error, more rows give the same error.
pub proof fn lemma_decoded_rows_fault(rows: Seq<Seq<u8>>, lenient: bool, n: int, m: int)
    requires
        n <= m,
        decoded_rows(rows, lenient, n).is_err(),
    ensures
        decoded_rows(rows, lenient, m) == decoded_rows(rows, lenient, n),
    decreases m - n,
{
    if n < m {
        lemma_decoded_rows_fault(rows, lenient, n, m - 1);
    }
}

/// Of the first `n` rows each is decoded or dropped; a lenient decoding is
/// no error, and a strict one drops nothing.
pub proof fn lemma_decoded_rows(rows: Seq<Seq<u8>>, lenient: bool, n: int)
    requires
        0 <= n,
    ensures
        lenient ==> decoded_rows(rows, lenient, n).is_ok(),
        match decoded_rows(rows, lenient, n) {
            Ok(pair) => pair.0.len() + pair.1 == n && (!lenient ==> pair.1 == 0),
            Err(_) => true,
        },
    decreases n,
{
    if n > 0 {
        lemma_decoded_rows(rows, lenient, n - 1);
    }
}

/// Decodes the rows of one block.
pub fn decode_block(block: &RawQueryBlock, policy: Policy) -> (r: Result<
    DecodedBlock,
    FieldParseError,
>)
    ensures
        decoded_block_view(r) == decoded_block(
            block@.name,
            block@.rows,
            policy == Policy::Lenient,
        ),
        policy == Policy::Lenient ==> r.is_ok(),
{
    let ghost rows = block@.rows;
    let ghost lenient = policy == Policy::Lenient;
    let mut hits: Vec<HitFields> = Vec::new();
    let mut skipped_rows: usize = 0;
    let mut i: usize = 0;
    assert(fields_views(hits@) =~= Seq::<HitFieldsModel>::empty());
    assert(rows.len() == block.raw_rows.len());
    while i < block.raw_rows.len()
        invariant
            i <= block.raw_rows.len(),
            rows == block@.rows,
            rows.len() == block.raw_rows.len(),
            lenient == (policy == Policy::Lenient),
            skipped_rows <= i,
            decoded_rows(rows, lenient, i as int) == Ok::<
                (Seq<HitFieldsModel>, nat),
                FieldParseErrorModel,
            >((fields_views(hits@), skipped_rows as nat)),
        decreases block.raw_rows.len() - i,
    {
        assert(rows[i as int] == block.raw_rows[i as int]@);
        match decode(block.raw_rows[i].as_slice()) {
            Ok(f) => {
                let ghost before = fields_views(hits@);
                hits.push(f);
                assert(fields_views(hits@) =~= before.push(f@));
            },
            Err(e) => {
                match policy {
                    Policy::Lenient => {
                        skipped_rows = skipped_rows + 1;
                    },
                    Policy::Strict => {
                        proof {
                            lemma_decoded_rows_fault(rows, lenient, i + 1, rows.len() as int);
                        }
                        return Err(e);
                    },
                }
            },
        }
        i += 1;
    }
    Ok(DecodedBlock { name: slice_to_vec(block.name.as_slice()), hits, skipped_rows })
}

} // verus!

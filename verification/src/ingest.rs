//! From the sheets of a workbook to one typed table: the schema is read
//! from the first sheet's header, every other row of every sheet is
//! coerced to it, and rows that are left with a gap are dropped.
use crate::binary64::{exponent, is_finite, is_negative, parts, significand};
use crate::epoch::{day_offset_of, to_day_offset};
use crate::ledger::Header;
use crate::money::{cents_of, decode, round_scaled, scaled_round};
use crate::text::{rank_text, Rank};
use vstd::prelude::*;

verus! {

/// What a column holds.
#[derive(Clone, Copy, Debug, PartialEq, Eq, Structural)]
pub enum ColumnKind {
    Date,
    Decimal,
    Text,
}

/// The kind of the column with the given name: the date column holds
/// dates, the cost column money, every other column text.
pub open spec fn kind_of(name: Seq<char>) -> ColumnKind {
    if name == "Tarikh"@ {
        ColumnKind::Date
    } else if name == "Jumlah"@ {
        ColumnKind::Decimal
    } else {
        ColumnKind::Text
    }
}

/// The kind of the column with the given name.
pub fn type_of(name: &str) -> (k: ColumnKind)
    ensures
        k == kind_of(name@),
{
    let names = Header::new();
    match rank_text(name, names.date) {
        Rank::Equal => ColumnKind::Date,
        _ => match rank_text(name, names.cost) {
            Rank::Equal => ColumnKind::Decimal,
            _ => ColumnKind::Text,
        },
    }
}

/// One cell of a sheet. A number with a fraction, a date serial and a
/// duration are given by the bits of their 64-bit binary value; `Empty`
/// stands for a cell without a value and for one of a type that the table
/// has no use for.
#[derive(Debug)]
pub enum Cell {
    Int(i64),
    Float(u64),
    Text(String),
    Bool(bool),
    DateTime(u64),
    Duration(u64),
    Empty,
}

/// One value of the table. Money is in cents, a date in days counted from
/// 1970-01-01, a duration in milliseconds; `Null` marks a gap.
#[derive(Debug)]
pub enum Value {
    Decimal(i64),
    Text(String),
    Date(i32),
    Duration(i64),
    Null,
}

/// The number given by `bits` rounded to the nearest integer, a half away
/// from zero.
pub open spec fn whole_of(bits: u64) -> int {
    let c = scaled_round(significand(bits), exponent(bits));
    if is_negative(bits) {
        -c
    } else {
        c
    }
}

/// The number given by `bits` rounded to the nearest integer, a half away
/// from zero; `None` for an infinity, a NaN, and a number that does not fit.
pub fn round_whole(bits: u64) -> (r: Option<i64>)
    ensures
        r == (if is_finite(bits) && i64::MIN <= whole_of(bits) <= i64::MAX {
            Some(whole_of(bits) as i64)
        } else {
            None
        }),
{
    let p = match parts(bits) {
        Some(p) => p,
        None => {
            return None;
        },
    };
    let m = match round_scaled(p.significand as u128, p.exponent) {
        Some(m) => m,
        None => {
            return None;
        },
    };
    if p.negative {
        if m <= 0x8000_0000_0000_0000 {
            Some((-(m as i128)) as i64)
        } else {
            None
        }
    } else {
        if m <= 0x7fff_ffff_ffff_ffff {
            Some(m as i64)
        } else {
            None
        }
    }
}

/// The value that a cell stands for by its own type: a number is money in
/// currency units, a whole number as well as a fraction; a date serial is a
/// day, a duration a count of milliseconds, text is itself. A truth value,
/// an empty cell and what cannot be represented are `Null`.
pub open spec fn value_of(cell: Cell) -> Value {
    match cell {
        Cell::Int(i) => if i64::MIN <= i * 100 <= i64::MAX {
            Value::Decimal((i * 100) as i64)
        } else {
            Value::Null
        },
        Cell::Float(bits) => if is_finite(bits) && i64::MIN <= cents_of(bits) <= i64::MAX {
            Value::Decimal(cents_of(bits) as i64)
        } else {
            Value::Null
        },
        Cell::Text(s) => Value::Text(s),
        Cell::Bool(_) => Value::Null,
        Cell::DateTime(bits) => if is_finite(bits) && i32::MIN <= day_offset_of(bits) <= i32::MAX {
            Value::Date(day_offset_of(bits) as i32)
        } else {
            Value::Null
        },
        Cell::Duration(bits) => if is_finite(bits) && i64::MIN <= whole_of(bits) <= i64::MAX {
            Value::Duration(whole_of(bits) as i64)
        } else {
            Value::Null
        },
        Cell::Empty => Value::Null,
    }
}

/// The value that a cell stands for by its own type.
pub fn to_value(cell: &Cell) -> (v: Value)
    ensures
        v == value_of(*cell),
{
    match cell {
        Cell::Int(i) => match i.checked_mul(100) {
            Some(c) => Value::Decimal(c),
            None => Value::Null,
        },
        Cell::Float(bits) => match decode(*bits) {
            Some(c) => Value::Decimal(c),
            None => Value::Null,
        },
        Cell::Text(s) => Value::Text(s.clone()),
        Cell::Bool(_) => Value::Null,
        Cell::DateTime(bits) => match to_day_offset(*bits) {
            Some(d) => Value::Date(d),
            None => Value::Null,
        },
        Cell::Duration(bits) => match round_whole(*bits) {
            Some(ms) => Value::Duration(ms),
            None => Value::Null,
        },
        Cell::Empty => Value::Null,
    }
}

/// A value as its column takes it: a day in a date column, money in a
/// money column, text in a text column; anything else is `Null`.
pub open spec fn coerced(v: Value, kind: ColumnKind) -> Value {
    match (kind, v) {
        (ColumnKind::Date, Value::Date(d)) => Value::Date(d),
        (ColumnKind::Decimal, Value::Decimal(c)) => Value::Decimal(c),
        (ColumnKind::Text, Value::Text(s)) => Value::Text(s),
        _ => Value::Null,
    }
}

/// A value as its column takes it.
pub fn coerce(v: Value, kind: ColumnKind) -> (r: Value)
    ensures
        r == coerced(v, kind),
{
    match kind {
        ColumnKind::Date => match v {
            Value::Date(d) => Value::Date(d),
            _ => Value::Null,
        },
        ColumnKind::Decimal => match v {
            Value::Decimal(c) => Value::Decimal(c),
            _ => Value::Null,
        },
        ColumnKind::Text => match v {
            Value::Text(s) => Value::Text(s),
            _ => Value::Null,
        },
    }
}

/// The value is of the kind of its column; `Null` is of no kind.
pub open spec fn well_typed(v: Value, kind: ColumnKind) -> bool {
    match kind {
        ColumnKind::Date => v is Date,
        ColumnKind::Decimal => v is Decimal,
        ColumnKind::Text => v is Text,
    }
}

/// What is coerced to a column is of the column's kind or `Null`.
pub proof fn lemma_coerced_is_typed(v: Value, kind: ColumnKind)
    ensures
        coerced(v, kind) is Null || well_typed(coerced(v, kind), kind),
{
}

/// A column of the table: its name and what it holds.
#[derive(Debug)]
pub struct Column {
    pub name: String,
    pub kind: ColumnKind,
}

/// The table: every row has one value for each column of the schema.
#[derive(Debug)]
pub struct Table {
    pub schema: Vec<Column>,
    pub rows: Vec<Vec<Value>>,
}

/// One sheet of a workbook: its name and its rows of cells, the header
/// row first.
#[derive(Debug)]
pub struct Sheet {
    pub name: String,
    pub rows: Vec<Vec<Cell>>,
}

/// Why a workbook could not be read into a table.
#[derive(Debug)]
pub enum IngestError {
    /// No sheet was asked for.
    NoSheets,
    /// The workbook has no sheet of this name.
    MissingSheet(String),
    /// The sheet of this name has no row, so no header.
    EmptyHeader(String),
}

/// The name that a header cell gives its column: its text, and no name
/// where the cell holds no text.
pub open spec fn label_of(cell: Cell) -> Seq<char> {
    match cell {
        Cell::Text(s) => s@,
        _ => Seq::empty(),
    }
}

/// `schema` is what the header row says: one column for each cell, named
/// by the cell and of the kind of that name.
pub open spec fn is_schema_of(schema: Seq<Column>, header: Seq<Cell>) -> bool {
    &&& schema.len() == header.len()
    &&& forall|c: int|
        0 <= c < schema.len() ==> (#[trigger] schema[c]).name@ == label_of(header[c])
            && schema[c].kind == kind_of(label_of(header[c]))
}

/// A row of cells coerced to the schema, cell by cell in the order of the
/// columns: a cell without a column is left out, a column without a cell
/// is `Null`.
pub open spec fn coerced_row(cells: Seq<Cell>, schema: Seq<Column>) -> Seq<Value> {
    Seq::new(
        schema.len(),
        |c: int|
            if c < cells.len() {
                coerced(value_of(cells[c]), schema[c].kind)
            } else {
                Value::Null
            },
    )
}

/// No value of the row is `Null`.
pub open spec fn complete(row: Seq<Value>) -> bool {
    forall|c: int| 0 <= c < row.len() ==> !((#[trigger] row[c]) is Null)
}

/// The workbook has a sheet of this name.
pub open spec fn has_sheet(workbook: Seq<Sheet>, name: Seq<char>) -> bool {
    exists|p: int| 0 <= p < workbook.len() && (#[trigger] workbook[p]).name@ == name
}

/// `p` is the place of the first sheet of this name.
pub open spec fn is_position(workbook: Seq<Sheet>, name: Seq<char>, p: int) -> bool {
    &&& 0 <= p < workbook.len()
    &&& workbook[p].name@ == name
    &&& forall|j: int| 0 <= j < p ==> (#[trigger] workbook[j]).name@ != name
}

/// The place of the first sheet of this name.
pub open spec fn position_of(workbook: Seq<Sheet>, name: Seq<char>) -> int {
    choose|p: int| is_position(workbook, name, p)
}

/// The workbook has a sheet of this name, and the sheet has a header row.
pub open spec fn usable(workbook: Seq<Sheet>, name: Seq<char>) -> bool {
    has_sheet(workbook, name) && workbook[position_of(workbook, name)].rows.len() > 0
}

/// The rows of the named sheets below their headers, sheet after sheet in
/// the order of the names.
pub open spec fn data_of(workbook: Seq<Sheet>, names: Seq<String>) -> Seq<Vec<Cell>>
    decreases names.len(),
{
    if names.len() == 0 {
        Seq::empty()
    } else {
        let sheet = workbook[position_of(workbook, names.last()@)];
        data_of(workbook, names.drop_last()) + sheet.rows@.subrange(1, sheet.rows.len() as int)
    }
}

/// The rows coerced to the schema, those with a `Null` left out.
pub open spec fn ingested(data: Seq<Vec<Cell>>, schema: Seq<Column>) -> Seq<Seq<Value>>
    decreases data.len(),
{
    if data.len() == 0 {
        Seq::empty()
    } else if complete(coerced_row(data.last()@, schema)) {
        ingested(data.drop_last(), schema).push(coerced_row(data.last()@, schema))
    } else {
        ingested(data.drop_last(), schema)
    }
}

/// The rows of a table as sequences of values.
pub open spec fn rows_view(rows: Seq<Vec<Value>>) -> Seq<Seq<Value>> {
    Seq::new(rows.len(), |i: int| rows[i]@)
}

/// Dropping never adds a row, and what is left has no gap: every row has a
/// value of the column's kind for each column of the schema, and none is
/// `Null`.
pub proof fn lemma_ingested_has_no_null(data: Seq<Vec<Cell>>, schema: Seq<Column>)
    ensures
        ingested(data, schema).len() <= data.len(),
        forall|i: int|
            0 <= i < ingested(data, schema).len() ==> {
                let row = #[trigger] ingested(data, schema)[i];
                &&& row.len() == schema.len()
                &&& complete(row)
                &&& forall|c: int|
                    0 <= c < row.len() ==> well_typed(#[trigger] row[c], schema[c].kind)
            },
    decreases data.len(),
{
    if data.len() > 0 {
        lemma_ingested_has_no_null(data.drop_last(), schema);
        let last = coerced_row(data.last()@, schema);
        if complete(last) {
            assert forall|c: int| 0 <= c < last.len() implies well_typed(
                #[trigger] last[c],
                schema[c].kind,
            ) by {
                if c < data.last()@.len() {
                    lemma_coerced_is_typed(value_of(data.last()@[c]), schema[c].kind);
                }
            }
        }
    }
}

/// The place of the first sheet of the given name.
pub fn find_sheet(workbook: &Vec<Sheet>, name: &str) -> (r: Option<usize>)
    ensures
        match r {
            Some(p) => has_sheet(workbook@, name@) && p == position_of(workbook@, name@)
                && is_position(workbook@, name@, p as int),
            None => !has_sheet(workbook@, name@),
        },
{
    let mut p: usize = 0;
    while p < workbook.len()
        invariant
            p <= workbook.len(),
            forall|j: int| 0 <= j < p ==> (#[trigger] workbook[j]).name@ != name@,
        decreases workbook.len() - p,
    {
        match rank_text(workbook[p].name.as_str(), name) {
            Rank::Equal => {
                proof {
                    assert(is_position(workbook@, name@, p as int));
                    let q = position_of(workbook@, name@);
                    assert(is_position(workbook@, name@, q));
                    assert(q == p);
                }
                return Some(p);
            },
            _ => {},
        }
        p = p + 1;
    }
    None
}

/// The schema that a header row gives.
pub fn schema_from(header: &Vec<Cell>) -> (schema: Vec<Column>)
    ensures
        is_schema_of(schema@, header@),
{
    let mut schema: Vec<Column> = Vec::new();
    let mut c: usize = 0;
    while c < header.len()
        invariant
            c <= header.len(),
            schema.len() == c,
            forall|i: int|
                0 <= i < c ==> (#[trigger] schema[i]).name@ == label_of(header[i])
                    && schema[i].kind == kind_of(label_of(header[i])),
        decreases header.len() - c,
    {
        let name = match &header[c] {
            Cell::Text(s) => s.clone(),
            _ => String::new(),
        };
        let kind = type_of(name.as_str());
        schema.push(Column { name, kind });
        c = c + 1;
    }
    schema
}

/// A row of cells coerced to the schema.
pub fn coerce_row(cells: &Vec<Cell>, schema: &Vec<Column>) -> (row: Vec<Value>)
    ensures
        row@ == coerced_row(cells@, schema@),
{
    let mut row: Vec<Value> = Vec::new();
    let mut c: usize = 0;
    while c < schema.len()
        invariant
            c <= schema.len(),
            row.len() == c,
            forall|i: int| 0 <= i < c ==> (#[trigger] row[i]) == coerced_row(cells@, schema@)[i],
        decreases schema.len() - c,
    {
        let v = if c < cells.len() {
            coerce(to_value(&cells[c]), schema[c].kind)
        } else {
            Value::Null
        };
        row.push(v);
        c = c + 1;
    }
    proof {
        assert(row@ =~= coerced_row(cells@, schema@));
    }
    row
}

/// Whether no value of the row is `Null`.
pub fn is_complete(row: &Vec<Value>) -> (r: bool)
    ensures
        r == complete(row@),
{
    let mut c: usize = 0;
    while c < row.len()
        invariant
            c <= row.len(),
            forall|i: int| 0 <= i < c ==> !((#[trigger] row[i]) is Null),
        decreases row.len() - c,
    {
        match &row[c] {
            Value::Null => {
                return false;
            },
            _ => {},
        }
        c = c + 1;
    }
    true
}

/// Every named sheet is in the workbook.
pub open spec fn all_present(workbook: Seq<Sheet>, names: Seq<String>) -> bool {
    forall|j: int| 0 <= j < names.len() ==> has_sheet(workbook, (#[trigger] names[j])@)
}

/// Reads the named sheets of a workbook into one table.
///
/// The schema is that of the first named sheet's header row. The rows
/// below the header of each named sheet, in the order of the names, are
/// coerced to it cell by cell, by position: the header of a later sheet is
/// not looked at. A row that is left with a `Null` is dropped.
///
/// It fails, in this order: where no sheet is named; where the first
/// named sheet is missing from the workbook; where the first named sheet
/// has no row; where any named sheet is missing, with the first such name,
/// whatever the sheets before it hold; and where any named sheet has no
/// row, with the first such name.
pub fn timeseries_from_excel(workbook: &Vec<Sheet>, sheets: &Vec<String>) -> (r: Result<
    Table,
    IngestError,
>)
    ensures
        match r {
            Ok(t) => {
                let first = workbook[position_of(workbook@, sheets[0]@)];
                &&& sheets.len() > 0
                &&& forall|i: int| 0 <= i < sheets.len() ==> usable(workbook@, (#[trigger] sheets[i])@)
                &&& is_schema_of(t.schema@, first.rows[0]@)
                &&& rows_view(t.rows@) == ingested(data_of(workbook@, sheets@), t.schema@)
                &&& t.rows.len() <= data_of(workbook@, sheets@).len()
                &&& forall|i: int, c: int|
                    0 <= i < t.rows.len() && 0 <= c < t.schema.len() ==> (#[trigger] t.rows[i]).len()
                        == t.schema.len() && well_typed(
                        t.rows[i][c],
                        (#[trigger] t.schema[c]).kind,
                    )
            },
            Err(IngestError::NoSheets) => sheets.len() == 0,
            Err(IngestError::MissingSheet(name)) => exists|i: int|
                0 <= i < sheets.len() && (#[trigger] sheets[i])@ == name@ && !has_sheet(
                    workbook@,
                    name@,
                ) && (i > 0 ==> usable(workbook@, sheets[0]@)) && forall|j: int|
                    0 <= j < i ==> has_sheet(workbook@, (#[trigger] sheets[j])@),
            Err(IngestError::EmptyHeader(name)) => exists|i: int|
                0 <= i < sheets.len() && (#[trigger] sheets[i])@ == name@ && has_sheet(
                    workbook@,
                    name@,
                ) && !usable(workbook@, name@) && (i > 0 ==> all_present(workbook@, sheets@))
                    && forall|j: int| 0 <= j < i ==> usable(workbook@, (#[trigger] sheets[j])@),
        },
{
    if sheets.len() == 0 {
        return Err(IngestError::NoSheets);
    }
    let first = match find_sheet(workbook, sheets[0].as_str()) {
        Some(p) => p,
        None => {
            return Err(IngestError::MissingSheet(sheets[0].clone()));
        },
    };
    if workbook[first].rows.len() == 0 {
        return Err(IngestError::EmptyHeader(sheets[0].clone()));
    }
    let schema = schema_from(&workbook[first].rows[0]);
    let mut places: Vec<usize> = Vec::new();
    places.push(first);
    let mut k: usize = 1;
    while k < sheets.len()
        invariant
            1 <= k <= sheets.len(),
            places.len() == k,
            usable(workbook@, sheets[0]@),
            forall|j: int|
                0 <= j < k ==> has_sheet(workbook@, (#[trigger] sheets[j])@) && places[j]
                    == position_of(workbook@, sheets[j]@) && places[j] < workbook.len(),
        decreases sheets.len() - k,
    {
        match find_sheet(workbook, sheets[k].as_str()) {
            Some(p) => {
                let ghost found = places@;
                places.push(p);
                proof {
                    assert forall|j: int| 0 <= j < k + 1 implies has_sheet(
                        workbook@,
                        (#[trigger] sheets[j])@,
                    ) && places[j] == position_of(workbook@, sheets[j]@) && places[j]
                        < workbook.len() by {
                        if j < k {
                            assert(places[j] == found[j]);
                        }
                    }
                }
            },
            None => {
                return Err(IngestError::MissingSheet(sheets[k].clone()));
            },
        }
        k = k + 1;
    }
    let mut rows: Vec<Vec<Value>> = Vec::new();
    let ghost mut done: Seq<Vec<Cell>> = Seq::empty();
    let mut i: usize = 0;
    while i < sheets.len()
        invariant
            i <= sheets.len(),
            places.len() == sheets.len(),
            all_present(workbook@, sheets@),
            forall|j: int|
                0 <= j < sheets.len() ==> (#[trigger] places[j]) == position_of(
                    workbook@,
                    sheets[j]@,
                ) && places[j] < workbook.len(),
            forall|j: int| 0 <= j < i ==> usable(workbook@, (#[trigger] sheets[j])@),
            done == data_of(workbook@, sheets@.subrange(0, i as int)),
            rows_view(rows@) == ingested(done, schema@),
        decreases sheets.len() - i,
    {
        let sheet = &workbook[places[i]];
        proof {
            assert(has_sheet(workbook@, sheets[i as int]@));
        }
        if sheet.rows.len() == 0 {
            return Err(IngestError::EmptyHeader(sheets[i].clone()));
        }
        let ghost before = done;
        let mut n: usize = 1;
        proof {
            assert(done =~= before + sheet.rows@.subrange(1, 1));
        }
        while n < sheet.rows.len()
            invariant
                1 <= n <= sheet.rows.len(),
                done == before + sheet.rows@.subrange(1, n as int),
                rows_view(rows@) == ingested(done, schema@),
            decreases sheet.rows.len() - n,
        {
            let row = coerce_row(&sheet.rows[n], &schema);
            proof {
                let more = done.push(sheet.rows[n as int]);
                assert(more.drop_last() =~= done);
                assert(more =~= before + sheet.rows@.subrange(1, n + 1));
                done = more;
            }
            if is_complete(&row) {
                let ghost shown = rows_view(rows@);
                rows.push(row);
                proof {
                    assert(rows_view(rows@) =~= shown.push(row@));
                }
            }
            n = n + 1;
        }
        proof {
            let upto = sheets@.subrange(0, i + 1);
            assert(upto.drop_last() =~= sheets@.subrange(0, i as int));
            assert(upto.last() == sheets[i as int]);
        }
        i = i + 1;
    }
    proof {
        assert(sheets@.subrange(0, i as int) =~= sheets@);
        lemma_ingested_has_no_null(done, schema@);
        assert forall|i: int, c: int|
            0 <= i < rows.len() && 0 <= c < schema.len() implies (#[trigger] rows[i]).len()
            == schema.len() && well_typed(rows[i][c], (#[trigger] schema[c]).kind) by {
            assert(rows_view(rows@)[i] == rows[i]@);
        }
        assert(usable(workbook@, sheets[0]@));
    }
    Ok(Table { schema, rows })
}

} // verus!

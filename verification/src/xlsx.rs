//! The parts of rust_xlsxwriter that this library writes spreadsheets with.
//!
//! A worksheet is described by its name and the text of its string cells, keyed
//! by (row, column); a workbook by its worksheets in order.

use vstd::prelude::*;

verus! {

#[verifier::external_type_specification]
#[verifier::external_body]
pub struct ExWorkbook(rust_xlsxwriter::Workbook);

#[verifier::external_type_specification]
#[verifier::external_body]
pub struct ExWorksheet(rust_xlsxwriter::Worksheet);

#[verifier::external_type_specification]
#[verifier::external_body]
pub struct ExFormat(rust_xlsxwriter::Format);

#[verifier::external_type_specification]
#[verifier::external_body]
pub struct ExXlsxError(rust_xlsxwriter::XlsxError);

/// The text of the string cells of a worksheet, by (row, column).
pub uninterp spec fn sheet_cells(ws: rust_xlsxwriter::Worksheet) -> Map<(u32, u16), Seq<char>>;

/// The widths of the columns of a worksheet that were set, by column.
pub uninterp spec fn sheet_widths(ws: rust_xlsxwriter::Worksheet) -> Map<u16, int>;

/// The name of a worksheet.
pub uninterp spec fn sheet_name(ws: rust_xlsxwriter::Worksheet) -> Seq<char>;

/// The worksheets of a workbook, in order, each as its name and its cells.
pub uninterp spec fn book_sheets(wb: rust_xlsxwriter::Workbook) -> Seq<(Seq<char>, Map<(u32, u16), Seq<char>>)>;

/// The column widths of the worksheets of a workbook, in order.
pub uninterp spec fn book_widths(wb: rust_xlsxwriter::Workbook) -> Seq<Map<u16, int>>;

/// A worksheet with no column width set.
pub open spec fn no_widths() -> Map<u16, int> {
    Map::empty()
}

/// A worksheet without cells.
pub open spec fn no_cells() -> Map<(u32, u16), Seq<char>> {
    Map::empty()
}

/// A workbook without worksheets.
pub open spec fn no_sheets() -> Seq<(Seq<char>, Map<(u32, u16), Seq<char>>)> {
    Seq::empty()
}

/// Rows a worksheet can have.
pub open spec fn row_limit() -> int {
    1048576
}

/// Columns a worksheet can have.
pub open spec fn col_limit() -> int {
    16384
}

/// Characters a cell can hold.
pub open spec fn cell_text_limit() -> int {
    32767
}

/// The worksheet names that Excel accepts: not blank, at most 31 characters,
/// none of `* ? : [ ] \ /`, and no apostrophe at either end.
pub open spec fn valid_sheet_name(name: Seq<char>) -> bool {
    &&& name.len() > 0
    &&& name.len() <= 31
    &&& forall|i: int|
        0 <= i < name.len() ==> name[i] != '*' && name[i] != '?' && name[i] != ':' && name[i]
            != '[' && name[i] != ']' && name[i] != '\\' && name[i] != '/'
    &&& name[0] != '\''
    &&& name[name.len() - 1] != '\''
}

/// What writing the text `s` at (`row`, `col`) does to cells `before`, and
/// whether it succeeds: an empty text writes nothing, a cell outside the sheet or
/// a text over the cell limit is refused, and any other text replaces the cell.
pub open spec fn write_outcome(
    before: Map<(u32, u16), Seq<char>>,
    row: u32,
    col: u16,
    s: Seq<char>,
) -> (bool, Map<(u32, u16), Seq<char>>) {
    if s.len() == 0 {
        (true, before)
    } else if row < row_limit() && col < col_limit() && s.len() <= cell_text_limit() {
        (true, before.insert((row, col), s))
    } else {
        (false, before)
    }
}

/// `Worksheet::new()`: a worksheet with no name yet and no cells.
#[verifier::external_body]
pub(crate) fn worksheet_new() -> (ws: rust_xlsxwriter::Worksheet)
    ensures
        sheet_cells(ws) == no_cells(),
        sheet_widths(ws) == no_widths(),
        sheet_name(ws).len() == 0,
{
    rust_xlsxwriter::Worksheet::new()
}

/// `Worksheet::set_name`: succeeds exactly on the names that Excel accepts (the
/// crate's `validate_sheetname`), and then names the sheet; a refused name
/// leaves the sheet unchanged.
#[verifier::external_body]
pub(crate) fn worksheet_set_name(ws: &mut rust_xlsxwriter::Worksheet, name: &str) -> (r: Result<
    (),
    rust_xlsxwriter::XlsxError,
>)
    ensures
        r is Ok <==> valid_sheet_name(name@),
        r is Ok ==> sheet_name(*final(ws)) == name@,
        r is Err ==> sheet_name(*final(ws)) == sheet_name(*old(ws)),
        sheet_cells(*final(ws)) == sheet_cells(*old(ws)),
        sheet_widths(*final(ws)) == sheet_widths(*old(ws)),
{
    ws.set_name(name).map(|_| ())
}

/// `Worksheet::set_column_width` with a positive width: refused only for a column
/// outside the sheet; otherwise the column's width becomes `width`, capped at
/// Excel's 255. Names and cells are not touched.
#[verifier::external_body]
pub(crate) fn worksheet_set_column_width(ws: &mut rust_xlsxwriter::Worksheet, col: u16, width: u16) -> (r:
    Result<(), rust_xlsxwriter::XlsxError>)
    requires
        width > 0,
    ensures
        r is Ok <==> col < col_limit(),
        r is Ok ==> sheet_widths(*final(ws)) == sheet_widths(*old(ws)).insert(
            col,
            if width > 255 {
                255
            } else {
                width as int
            },
        ),
        r is Err ==> sheet_widths(*final(ws)) == sheet_widths(*old(ws)),
        sheet_cells(*final(ws)) == sheet_cells(*old(ws)),
        sheet_name(*final(ws)) == sheet_name(*old(ws)),
{
    ws.set_column_width(col, width).map(|_| ())
}

/// `Worksheet::write_string`, as `write_outcome` says (the crate's
/// `store_string`: empty strings are skipped, then the cell range and the
/// 32767-character limit are checked, then the cell is stored).
#[verifier::external_body]
pub(crate) fn worksheet_write_string(ws: &mut rust_xlsxwriter::Worksheet, row: u32, col: u16, s: &str) -> (r:
    Result<(), rust_xlsxwriter::XlsxError>)
    ensures
        (r is Ok) == write_outcome(sheet_cells(*old(ws)), row, col, s@).0,
        sheet_cells(*final(ws)) == write_outcome(sheet_cells(*old(ws)), row, col, s@).1,
        sheet_name(*final(ws)) == sheet_name(*old(ws)),
        sheet_widths(*final(ws)) == sheet_widths(*old(ws)),
{
    ws.write_string(row, col, s).map(|_| ())
}

/// `Worksheet::write_string_with_format` with a non-empty text: as
/// `write_string`; the format is not described.
#[verifier::external_body]
pub(crate) fn worksheet_write_string_with_format(
    ws: &mut rust_xlsxwriter::Worksheet,
    row: u32,
    col: u16,
    s: &str,
    format: &rust_xlsxwriter::Format,
) -> (r: Result<(), rust_xlsxwriter::XlsxError>)
    requires
        s@.len() > 0,
    ensures
        (r is Ok) == write_outcome(sheet_cells(*old(ws)), row, col, s@).0,
        sheet_cells(*final(ws)) == write_outcome(sheet_cells(*old(ws)), row, col, s@).1,
        sheet_name(*final(ws)) == sheet_name(*old(ws)),
        sheet_widths(*final(ws)) == sheet_widths(*old(ws)),
{
    ws.write_string_with_format(row, col, s, format).map(|_| ())
}

/// `Format::new()`: the default cell format.
#[verifier::external_body]
pub(crate) fn format_new() -> rust_xlsxwriter::Format {
    rust_xlsxwriter::Format::new()
}

/// `Format::set_bold`.
#[verifier::external_body]
pub(crate) fn format_set_bold(f: rust_xlsxwriter::Format) -> rust_xlsxwriter::Format {
    f.set_bold()
}

/// `Format::set_text_wrap`.
#[verifier::external_body]
pub(crate) fn format_set_text_wrap(f: rust_xlsxwriter::Format) -> rust_xlsxwriter::Format {
    f.set_text_wrap()
}

/// `Format::set_font_color` with an RGB value.
#[verifier::external_body]
pub(crate) fn format_set_font_color(f: rust_xlsxwriter::Format, rgb: u32) -> rust_xlsxwriter::Format {
    f.set_font_color(rgb)
}

/// `Workbook::new()`: a workbook without worksheets.
#[verifier::external_body]
pub(crate) fn workbook_new() -> (wb: rust_xlsxwriter::Workbook)
    ensures
        book_sheets(wb) == no_sheets(),
        book_widths(wb).len() == 0,
{
    rust_xlsxwriter::Workbook::new()
}

/// `Workbook::push_worksheet` of a named worksheet: appended as it is.
#[verifier::external_body]
pub(crate) fn workbook_push_worksheet(wb: &mut rust_xlsxwriter::Workbook, ws: rust_xlsxwriter::Worksheet)
    requires
        sheet_name(ws).len() > 0,
    ensures
        book_sheets(*final(wb)) == book_sheets(*old(wb)).push((sheet_name(ws), sheet_cells(ws))),
        book_widths(*final(wb)) == book_widths(*old(wb)).push(sheet_widths(ws)),
{
    wb.push_worksheet(ws)
}

/// `Workbook::save_to_buffer`: the xlsx file as bytes. Nothing is claimed of the
/// bytes: they hold, among others, the time of saving.
#[verifier::external_body]
pub(crate) fn workbook_save_to_buffer(wb: &mut rust_xlsxwriter::Workbook) -> Result<
    Vec<u8>,
    rust_xlsxwriter::XlsxError,
> {
    wb.save_to_buffer()
}

/// The message of a rust_xlsxwriter error (its `Display`). Nothing is claimed of
/// the text.
#[verifier::external_body]
pub(crate) fn xlsx_error_text(e: &rust_xlsxwriter::XlsxError) -> String {
    e.to_string()
}

} // verus!

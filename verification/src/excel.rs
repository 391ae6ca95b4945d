//! The mapping table as a spreadsheet: the workbook that is handed out to be
//! filled in, and the reading of a filled-in one.

use vstd::prelude::*;

use crate::ledger::{entries_view, EntryStatus, EntryView, Ledger};
use crate::scan::FileEntry;
use crate::strs::strings_view;
use crate::text::{trim, trim_str};
use crate::validate::{COL_NEW, COL_OLD};
use crate::xlsx::{
    book_sheets, book_widths, sheet_widths, format_new, format_set_bold, format_set_font_color, format_set_text_wrap,
    no_cells, no_sheets, no_widths, sheet_cells, sheet_name, valid_sheet_name, workbook_new,
    workbook_push_worksheet, workbook_save_to_buffer, worksheet_new, worksheet_set_column_width,
    worksheet_set_name, worksheet_write_string, worksheet_write_string_with_format,
    write_outcome, xlsx_error_text, cell_text_limit, col_limit, row_limit,
};

verus! {

/// Errors met while writing or reading a spreadsheet.
#[derive(Debug)]
pub enum ExcelError {
    Write(String),
    Read(String),
    MissingHeaders,
}

pub const NOTES_SHEET: &'static str = "使用说明";

pub const LIST_SHEET: &'static str = "文件列表";

pub const NOTE_1: &'static str = "修改文件名需谨慎！请提前做好数据备份。";

pub const NOTE_2: &'static str = "本工具只改文件名、不复制文件内容。测序大文件请务必先核对再执行。";

pub const NOTE_3: &'static str = "请在「文件列表」工作表填写「新文件名称」。必须包含完整扩展名，例如 .fastq.gz / .bam。";

pub const NOTE_4: &'static str = "新文件名称为空或与当前名称相同的行会被跳过。";

pub const NOTE_5: &'static str = "不要修改表头列名，不要填写路径，只能填写文件名。";

pub const NOTE_6: &'static str = "请勿使用非法字符: \\ / : * ? \" < > |";

/// Colour of the usage notes (RGB).
pub const NOTE_COLOR: u32 = 0x9B1B30;

/// The usage notes, one per row.
pub open spec fn notes() -> Seq<Seq<char>> {
    seq![NOTE_1@, NOTE_2@, NOTE_3@, NOTE_4@, NOTE_5@, NOTE_6@]
}

/// The cells of the notes sheet after its first `k` rows were written.
pub open spec fn notes_cells(k: nat) -> Map<(u32, u16), Seq<char>>
    decreases k,
{
    if k == 0 {
        no_cells()
    } else {
        notes_cells((k - 1) as nat).insert(((k - 1) as u32, 0u16), notes()[k - 1])
    }
}

/// The cells of the file list sheet after the header and the first `k` files.
pub open spec fn list_cells(files: Seq<FileEntry>, k: nat) -> Map<(u32, u16), Seq<char>>
    decreases k,
{
    if k == 0 {
        no_cells().insert((0u32, 0u16), COL_OLD@).insert((0u32, 1u16), COL_NEW@)
    } else {
        write_outcome(
            list_cells(files, (k - 1) as nat),
            k as u32,
            0u16,
            files[k - 1].name@,
        ).1
    }
}

/// Every file name of the list fits the sheet: it is empty (and skipped), or its
/// row is inside the sheet and it is within the cell limit.
pub open spec fn list_fits(files: Seq<FileEntry>) -> bool {
    forall|i: int|
        0 <= i < files.len() ==> (#[trigger] files[i]).name@.len() == 0 || (((i + 1) as u32)
            < row_limit() && files[i].name@.len() <= cell_text_limit())
}

/// The workbook handed out to be filled in: the notes sheet, then the list of
/// files with an empty column for the new names.
pub open spec fn mapping_sheets(files: Seq<FileEntry>) -> Seq<(Seq<char>, Map<(u32, u16), Seq<char>>)> {
    seq![(NOTES_SHEET@, notes_cells(6)), (LIST_SHEET@, list_cells(files, files.len()))]
}

/// The column widths of the workbook handed out: the notes column 80 wide, the
/// two name columns 48 wide.
pub open spec fn mapping_widths() -> Seq<Map<u16, int>> {
    seq![map![0u16 => 80int], map![0u16 => 48int, 1u16 => 48int]]
}

fn write_error(e: rust_xlsxwriter::XlsxError) -> (r: ExcelError)
    ensures
        r is Write,
{
    ExcelError::Write(xlsx_error_text(&e))
}

fn note_list() -> (v: Vec<&'static str>)
    ensures
        v@.len() == 6,
        forall|i: int| 0 <= i < 6 ==> (#[trigger] v@[i])@ == notes()[i],
{
    vec![NOTE_1, NOTE_2, NOTE_3, NOTE_4, NOTE_5, NOTE_6]
}

proof fn lemma_notes_fit()
    ensures
        forall|i: int|
            0 <= i < 6 ==> (#[trigger] notes()[i]).len() > 0 && notes()[i].len() <= cell_text_limit(),
{
    reveal_strlit("修改文件名需谨慎！请提前做好数据备份。");
    reveal_strlit("本工具只改文件名、不复制文件内容。测序大文件请务必先核对再执行。");
    reveal_strlit("请在「文件列表」工作表填写「新文件名称」。必须包含完整扩展名，例如 .fastq.gz / .bam。");
    reveal_strlit("新文件名称为空或与当前名称相同的行会被跳过。");
    reveal_strlit("不要修改表头列名，不要填写路径，只能填写文件名。");
    reveal_strlit("请勿使用非法字符: \\ / : * ? \" < > |");
}

proof fn lemma_sheet_names_valid()
    ensures
        valid_sheet_name(NOTES_SHEET@),
        valid_sheet_name(LIST_SHEET@),
{
    reveal_strlit("使用说明");
    reveal_strlit("文件列表");
}

/// The notes sheet.
fn notes_sheet() -> (r: Result<rust_xlsxwriter::Worksheet, ExcelError>)
    ensures
        r matches Ok(ws) ==> sheet_name(ws) == NOTES_SHEET@ && sheet_cells(ws) == notes_cells(6)
            && sheet_widths(ws) == mapping_widths()[0],
        r is Ok,
{
    let note_fmt = format_set_font_color(format_set_text_wrap(format_new()), NOTE_COLOR);
    let mut ws = worksheet_new();
    proof {
        lemma_sheet_names_valid();
        lemma_notes_fit();
    }
    match worksheet_set_name(&mut ws, NOTES_SHEET) {
        Ok(()) => {},
        Err(e) => return Err(write_error(e)),
    }
    match worksheet_set_column_width(&mut ws, 0, 80) {
        Ok(()) => {},
        Err(e) => return Err(write_error(e)),
    }
    assert(sheet_widths(ws) =~= mapping_widths()[0]);
    let lines = note_list();
    let mut i: usize = 0;
    while i < lines.len()
        invariant
            lines@.len() == 6,
            forall|k: int| 0 <= k < 6 ==> (#[trigger] lines@[k])@ == notes()[k],
            forall|k: int|
                0 <= k < 6 ==> (#[trigger] notes()[k]).len() > 0 && notes()[k].len()
                    <= cell_text_limit(),
            i <= 6,
            sheet_name(ws) == NOTES_SHEET@,
            sheet_cells(ws) == notes_cells(i as nat),
            sheet_widths(ws) == mapping_widths()[0],
        decreases 6 - i,
    {
        match worksheet_write_string_with_format(&mut ws, i as u32, 0, lines[i], &note_fmt) {
            Ok(()) => {},
            Err(e) => return Err(write_error(e)),
        }
        i = i + 1;
    }
    Ok(ws)
}

/// The list sheet: the two header cells, then one row per file.
fn list_sheet(files: &[FileEntry]) -> (r: Result<rust_xlsxwriter::Worksheet, ExcelError>)
    ensures
        r is Ok <==> list_fits(files@),
        r matches Ok(ws) ==> sheet_name(ws) == LIST_SHEET@ && sheet_cells(ws) == list_cells(
            files@,
            files@.len(),
        ) && sheet_widths(ws) == mapping_widths()[1],
        r matches Err(e) ==> e is Write,
{
    let header_fmt = format_set_bold(format_new());
    let mut ws = worksheet_new();
    proof {
        lemma_sheet_names_valid();
        reveal_strlit("当前文件名称");
        reveal_strlit("新文件名称");
    }
    match worksheet_set_name(&mut ws, LIST_SHEET) {
        Ok(()) => {},
        Err(e) => return Err(write_error(e)),
    }
    match worksheet_set_column_width(&mut ws, 0, 48) {
        Ok(()) => {},
        Err(e) => return Err(write_error(e)),
    }
    match worksheet_set_column_width(&mut ws, 1, 48) {
        Ok(()) => {},
        Err(e) => return Err(write_error(e)),
    }
    assert(sheet_widths(ws) =~= mapping_widths()[1]);
    match worksheet_write_string_with_format(&mut ws, 0, 0, COL_OLD, &header_fmt) {
        Ok(()) => {},
        Err(e) => return Err(write_error(e)),
    }
    match worksheet_write_string_with_format(&mut ws, 0, 1, COL_NEW, &header_fmt) {
        Ok(()) => {},
        Err(e) => return Err(write_error(e)),
    }
    let mut i: usize = 0;
    while i < files.len()
        invariant
            i <= files@.len(),
            sheet_name(ws) == LIST_SHEET@,
            sheet_cells(ws) == list_cells(files@, i as nat),
            sheet_widths(ws) == mapping_widths()[1],
            forall|k: int|
                0 <= k < i ==> (#[trigger] files@[k]).name@.len() == 0 || (((k + 1) as u32)
                    < row_limit() && files@[k].name@.len() <= cell_text_limit()),
        decreases files.len() - i,
    {
        #[verifier::truncate]
        let row = (i + 1) as u32;
        match worksheet_write_string(&mut ws, row, 0, files[i].name.as_str()) {
            Ok(()) => {},
            Err(e) => {
                assert(!list_fits(files@));
                return Err(write_error(e));
            },
        }
        let ghost cells = sheet_cells(ws);
        proof {
            reveal_strlit("");
        }
        match worksheet_write_string(&mut ws, row, 1, "") {
            Ok(()) => {},
            Err(e) => return Err(write_error(e)),
        }
        assert(sheet_cells(ws) == cells);
        i = i + 1;
    }
    Ok(ws)
}

/// The workbook handed out to be filled in: it is made exactly when every file
/// name fits a cell of its row.
pub fn mapping_workbook(files: &[FileEntry]) -> (r: Result<rust_xlsxwriter::Workbook, ExcelError>)
    ensures
        r is Ok <==> list_fits(files@),
        r matches Ok(wb) ==> book_sheets(wb) == mapping_sheets(files@) && book_widths(wb)
            == mapping_widths(),
        r matches Err(e) ==> e is Write,
{
    let mut wb = workbook_new();
    let first = notes_sheet()?;
    proof {
        reveal_strlit("使用说明");
        reveal_strlit("文件列表");
    }
    workbook_push_worksheet(&mut wb, first);
    let list = list_sheet(files)?;
    workbook_push_worksheet(&mut wb, list);
    assert(book_sheets(wb) =~= mapping_sheets(files@));
    assert(book_widths(wb) =~= mapping_widths());
    Ok(wb)
}

/// Saves a workbook as the bytes of an xlsx file.
pub fn workbook_bytes(wb: &mut rust_xlsxwriter::Workbook) -> (r: Result<Vec<u8>, ExcelError>)
    ensures
        r matches Err(e) ==> e is Write,
{
    match workbook_save_to_buffer(wb) {
        Ok(bytes) => Ok(bytes),
        Err(e) => Err(write_error(e)),
    }
}

/// The mapping table for `files`, as the bytes of an xlsx file (see
/// `mapping_workbook` for what it holds); refused when a file name does not fit
/// its cell.
pub fn export_mapping(files: &[FileEntry]) -> (r: Result<Vec<u8>, ExcelError>)
    ensures
        !list_fits(files@) ==> r is Err,
        r matches Err(e) ==> e is Write,
{
    let mut wb = mapping_workbook(files)?;
    workbook_bytes(&mut wb)
}

pub const MSG_NO_SHEETS: &'static str = "工作簿没有工作表";

/// The sheet the mapping is read from, by index: the first sheet named like the
/// list sheet, else the first sheet; `None` for a workbook without sheets.
pub open spec fn chosen_sheet(names: Seq<Seq<char>>) -> Option<int> {
    if exists|i: int| 0 <= i < names.len() && names[i] == LIST_SHEET@ {
        Some(
            choose|i: int|
                0 <= i < names.len() && names[i] == LIST_SHEET@ && forall|j: int|
                    0 <= j < i ==> names[j] != LIST_SHEET@,
        )
    } else if names.len() > 0 {
        Some(0)
    } else {
        None
    }
}

proof fn lemma_first_named(names: Seq<Seq<char>>, i: int)
    requires
        0 <= i < names.len(),
        names[i] == LIST_SHEET@,
    ensures
        exists|k: int|
            0 <= k <= i && names[k] == LIST_SHEET@ && forall|j: int|
                0 <= j < k ==> names[j] != LIST_SHEET@,
    decreases i,
{
    if exists|j: int| 0 <= j < i && names[j] == LIST_SHEET@ {
        let j = choose|j: int| 0 <= j < i && names[j] == LIST_SHEET@;
        lemma_first_named(names, j);
    }
}

/// Chooses the sheet of a workbook (given by its sheet names) that holds the
/// mapping, as `chosen_sheet` says; refused for a workbook without sheets.
pub fn choose_sheet(names: &[String]) -> (r: Result<usize, ExcelError>)
    ensures
        r matches Ok(i) ==> chosen_sheet(strings_view(names@)) == Some(i as int),
        r matches Err(e) ==> chosen_sheet(strings_view(names@)) is None && e == ExcelError::Read(
            e->Read_0,
        ) && e->Read_0@ == MSG_NO_SHEETS@,
{
    let ghost nv = strings_view(names@);
    let target = String::from_str(LIST_SHEET);
    let mut i: usize = 0;
    while i < names.len()
        invariant
            nv == strings_view(names@),
            target@ == LIST_SHEET@,
            i <= names@.len(),
            forall|j: int| 0 <= j < i ==> nv[j] != LIST_SHEET@,
        decreases names.len() - i,
    {
        if names[i] == target {
            proof {
                assert(nv[i as int] == LIST_SHEET@);
                lemma_first_named(nv, i as int);
                let k = choose|k: int|
                    0 <= k < nv.len() && nv[k] == LIST_SHEET@ && forall|j: int|
                        0 <= j < k ==> nv[j] != LIST_SHEET@;
                assert(k == i) by {
                    if k < i {
                        assert(nv[k] != LIST_SHEET@);
                    }
                    if k > i {
                        assert(nv[i as int] != LIST_SHEET@);
                    }
                }
            }
            return Ok(i);
        }
        i = i + 1;
    }
    if names.len() > 0 {
        Ok(0)
    } else {
        Err(ExcelError::Read(String::from_str(MSG_NO_SHEETS)))
    }
}

/// Where the header search stands: the columns of the two headers and the row
/// where one was last seen.
pub type HeaderScan = (Option<int>, Option<int>, Option<int>);

/// The search after looking at the cell `text` at (`r`, `c`).
pub open spec fn header_cell(st: HeaderScan, r: int, c: int, text: Seq<char>) -> HeaderScan {
    let st1 = if text == COL_OLD@ {
        (Some(c), st.1, Some(r))
    } else {
        st
    };
    if text == COL_NEW@ {
        (st1.0, Some(c), Some(r))
    } else {
        st1
    }
}

/// The search after looking at the first `k` cells of row `r`.
pub open spec fn header_row_scan(row: Seq<Seq<char>>, r: int, k: nat, st: HeaderScan) -> HeaderScan
    decreases k,
{
    if k == 0 {
        st
    } else {
        header_cell(header_row_scan(row, r, (k - 1) as nat, st), r, k - 1, row[k - 1])
    }
}

/// The search after the first `k` rows; it stops at the end of the first row by
/// which both headers were seen.
pub open spec fn header_scan(rows: Seq<Seq<Seq<char>>>, k: nat) -> HeaderScan
    decreases k,
{
    if k == 0 {
        (None, None, None)
    } else {
        let st = header_scan(rows, (k - 1) as nat);
        if st.0 is Some && st.1 is Some {
            st
        } else {
            header_row_scan(rows[k - 1], k - 1, rows[k - 1].len(), st)
        }
    }
}

/// The text of cell `c` of `row`, or nothing past its end.
pub open spec fn cell_or_empty(row: Seq<Seq<char>>, c: int) -> Seq<char> {
    if 0 <= c < row.len() {
        row[c]
    } else {
        Seq::empty()
    }
}

/// The (current name, new name) rows below the header row `h`, among the first
/// `k` rows, leaving out rows where both names are blank.
pub open spec fn mapping_rows(rows: Seq<Seq<Seq<char>>>, oc: int, nc: int, h: int, k: nat) -> Seq<
    (Seq<char>, Seq<char>),
>
    decreases k,
{
    if k == 0 {
        Seq::empty()
    } else {
        let prev = mapping_rows(rows, oc, nc, h, (k - 1) as nat);
        let r = k - 1;
        let old_name = cell_or_empty(rows[r], oc);
        let new_name = cell_or_empty(rows[r], nc);
        if r <= h || (trim(old_name).len() == 0 && trim(new_name).len() == 0) {
            prev
        } else {
            prev.push((old_name, new_name))
        }
    }
}

/// The rows of a sheet, as text.
pub open spec fn grid_view(rows: Seq<Vec<String>>) -> Seq<Seq<Seq<char>>> {
    rows.map_values(|row: Vec<String>| strings_view(row@))
}

/// Pairs of strings, as pairs of character sequences.
pub open spec fn string_pairs(v: Seq<(String, String)>) -> Seq<(Seq<char>, Seq<char>)> {
    v.map_values(|p: (String, String)| (p.0@, p.1@))
}

fn scan_row(row: &Vec<String>, r: usize, st: (Option<usize>, Option<usize>, Option<usize>), old_head: &String, new_head: &String) -> (out: (Option<usize>, Option<usize>, Option<usize>))
    requires
        old_head@ == COL_OLD@,
        new_head@ == COL_NEW@,
    ensures
        opt3(out) == header_row_scan(strings_view(row@), r as int, row@.len(), opt3(st)),
{
    let mut out = st;
    let mut c: usize = 0;
    while c < row.len()
        invariant
            old_head@ == COL_OLD@,
            new_head@ == COL_NEW@,
            c <= row@.len(),
            opt3(out) == header_row_scan(strings_view(row@), r as int, c as nat, opt3(st)),
        decreases row.len() - c,
    {
        assert(strings_view(row@)[c as int] == row@[c as int]@);
        if row[c] == *old_head {
            out = (Some(c), out.1, Some(r));
        }
        if row[c] == *new_head {
            out = (out.0, Some(c), Some(r));
        }
        c = c + 1;
    }
    out
}

pub open spec fn opt_int(o: Option<usize>) -> Option<int> {
    match o {
        Some(x) => Some(x as int),
        None => None,
    }
}

pub open spec fn opt3(st: (Option<usize>, Option<usize>, Option<usize>)) -> HeaderScan {
    (opt_int(st.0), opt_int(st.1), opt_int(st.2))
}

/// Reads the mapping from the rows of the chosen sheet: finds the two header
/// cells, then takes, from every later row with a name in either column, the
/// texts of the two columns (empty where the row is too short).
pub fn import_mapping(rows: &Vec<Vec<String>>) -> (r: Result<Vec<(String, String)>, ExcelError>)
    ensures
        ({
            let g = grid_view(rows@);
            let st = header_scan(g, g.len());
            match st {
                (Some(oc), Some(nc), Some(h)) => r matches Ok(v) && string_pairs(v@)
                    == mapping_rows(g, oc, nc, h, g.len()),
                _ => r matches Err(e) && e is MissingHeaders,
            }
        }),
{
    let ghost g = grid_view(rows@);
    let old_head = String::from_str(COL_OLD);
    let new_head = String::from_str(COL_NEW);
    let mut st: (Option<usize>, Option<usize>, Option<usize>) = (None, None, None);
    let mut r: usize = 0;
    while r < rows.len()
        invariant_except_break
            !(st.0 is Some && st.1 is Some),
        invariant
            g == grid_view(rows@),
            old_head@ == COL_OLD@,
            new_head@ == COL_NEW@,
            r <= rows@.len(),
            opt3(st) == header_scan(g, r as nat),
        ensures
            r <= rows@.len(),
            opt3(st) == header_scan(g, r as nat),
            r == rows@.len() || (st.0 is Some && st.1 is Some),
        decreases rows.len() - r,
    {
        assert(g[r as int] == strings_view(rows@[r as int]@));
        st = scan_row(&rows[r], r, st, &old_head, &new_head);
        r = r + 1;
        if st.0.is_some() && st.1.is_some() {
            break;
        }
    }
    proof {
        lemma_header_scan_stops(g, r as nat, g.len());
    }
    let (oc, nc, h) = match st {
        (Some(o), Some(n), Some(h)) => (o, n, h),
        _ => {
            return Err(ExcelError::MissingHeaders);
        },
    };
    let mut out: Vec<(String, String)> = Vec::new();
    let mut k: usize = 0;
    assert(string_pairs(out@) =~= Seq::<(Seq<char>, Seq<char>)>::empty());
    while k < rows.len()
        invariant
            g == grid_view(rows@),
            k <= rows@.len(),
            string_pairs(out@) == mapping_rows(g, oc as int, nc as int, h as int, k as nat),
        decreases rows.len() - k,
    {
        let row = &rows[k];
        assert(g[k as int] == strings_view(row@));
        if k > h {
            let old_name = if oc < row.len() {
                row[oc].clone()
            } else {
                String::new()
            };
            let new_name = if nc < row.len() {
                row[nc].clone()
            } else {
                String::new()
            };
            let old_t = trim_str(old_name.as_str());
            let new_t = trim_str(new_name.as_str());
            if !(old_t.as_str().is_empty() && new_t.as_str().is_empty()) {
                let pair = (old_name, new_name);
                assert(string_pairs(out@.push(pair)) =~= string_pairs(out@).push((pair.0@, pair.1@)));
                out.push(pair);
            }
        }
        k = k + 1;
    }
    Ok(out)
}

proof fn lemma_header_scan_stops(g: Seq<Seq<Seq<char>>>, r: nat, n: nat)
    requires
        r <= n,
        r < n ==> (header_scan(g, r).0 is Some && header_scan(g, r).1 is Some),
    ensures
        header_scan(g, n) == header_scan(g, r),
    decreases n - r,
{
    if r < n {
        lemma_header_scan_stops(g, r, (n - 1) as nat);
    }
}

pub const LEDGER_SHEET: &'static str = "改名账本";

pub const COL_STATUS: &'static str = "状态";

pub const COL_ERROR: &'static str = "错误";

/// How a status is written in the ledger spreadsheet.
pub open spec fn status_label(st: EntryStatus) -> Seq<char> {
    match st {
        EntryStatus::Planned => "planned"@,
        EntryStatus::Success => "success"@,
        EntryStatus::Failed => "failed"@,
        EntryStatus::RolledBack => "rolled_back"@,
    }
}

fn status_text(st: EntryStatus) -> (s: &'static str)
    ensures
        s@ == status_label(st),
        s@.len() > 0,
        s@.len() <= cell_text_limit(),
{
    proof {
        reveal_strlit("planned");
        reveal_strlit("success");
        reveal_strlit("failed");
        reveal_strlit("rolled_back");
    }
    match st {
        EntryStatus::Planned => "planned",
        EntryStatus::Success => "success",
        EntryStatus::Failed => "failed",
        EntryStatus::RolledBack => "rolled_back",
    }
}

/// The cells of the ledger sheet after the header and the first `k` entries:
/// current name, new name, status, and the error where there is one.
pub open spec fn ledger_cells(es: Seq<EntryView>, k: nat) -> Map<(u32, u16), Seq<char>>
    decreases k,
{
    if k == 0 {
        no_cells().insert((0u32, 0u16), COL_OLD@).insert((0u32, 1u16), COL_NEW@).insert(
            (0u32, 2u16),
            COL_STATUS@,
        ).insert((0u32, 3u16), COL_ERROR@)
    } else {
        let e = es[k - 1];
        let row = k as u32;
        let m1 = write_outcome(ledger_cells(es, (k - 1) as nat), row, 0u16, e.old_name).1;
        let m2 = write_outcome(m1, row, 1u16, e.new_name).1;
        let m3 = write_outcome(m2, row, 2u16, status_label(e.status)).1;
        match e.error {
            Some(err) => write_outcome(m3, row, 3u16, err).1,
            None => m3,
        }
    }
}

/// Every entry fits a row of the sheet.
pub open spec fn ledger_fits(es: Seq<EntryView>) -> bool {
    &&& es.len() < row_limit()
    &&& forall|i: int|
        0 <= i < es.len() ==> (#[trigger] es[i]).old_name.len() <= cell_text_limit()
            && es[i].new_name.len() <= cell_text_limit() && (es[i].error matches Some(err)
            ==> err.len() <= cell_text_limit())
}

/// The spreadsheet copy of a ledger: one sheet with a header row and a row per
/// entry; it is made exactly when every entry fits its row.
pub fn ledger_workbook(ledger: &Ledger) -> (r: Result<rust_xlsxwriter::Workbook, ExcelError>)
    ensures
        r is Ok <==> ledger_fits(entries_view(ledger.entries@)),
        r matches Ok(wb) ==> book_sheets(wb) == seq![
            (LEDGER_SHEET@, ledger_cells(entries_view(ledger.entries@), ledger.entries@.len())),
        ] && book_widths(wb) == seq![no_widths()],
        r matches Err(e) ==> e is Write,
{
    let ghost es = entries_view(ledger.entries@);
    let mut ws = worksheet_new();
    proof {
        reveal_strlit("改名账本");
        reveal_strlit("当前文件名称");
        reveal_strlit("新文件名称");
        reveal_strlit("状态");
        reveal_strlit("错误");
    }
    match worksheet_set_name(&mut ws, LEDGER_SHEET) {
        Ok(()) => {},
        Err(e) => return Err(write_error(e)),
    }
    match worksheet_write_string(&mut ws, 0, 0, COL_OLD) {
        Ok(()) => {},
        Err(e) => return Err(write_error(e)),
    }
    match worksheet_write_string(&mut ws, 0, 1, COL_NEW) {
        Ok(()) => {},
        Err(e) => return Err(write_error(e)),
    }
    match worksheet_write_string(&mut ws, 0, 2, COL_STATUS) {
        Ok(()) => {},
        Err(e) => return Err(write_error(e)),
    }
    match worksheet_write_string(&mut ws, 0, 3, COL_ERROR) {
        Ok(()) => {},
        Err(e) => return Err(write_error(e)),
    }
    let mut i: usize = 0;
    while i < ledger.entries.len()
        invariant
            es == entries_view(ledger.entries@),
            i <= es.len(),
            i < row_limit(),
            sheet_name(ws) == LEDGER_SHEET@,
            sheet_cells(ws) == ledger_cells(es, i as nat),
            sheet_widths(ws) == no_widths(),
            forall|k: int|
                0 <= k < i ==> (#[trigger] es[k]).old_name.len() <= cell_text_limit()
                    && es[k].new_name.len() <= cell_text_limit() && (es[k].error matches Some(err)
                    ==> err.len() <= cell_text_limit()),
        decreases ledger.entries.len() - i,
    {
        let entry = &ledger.entries[i];
        assert(es[i as int] == entry@);
        let row = (i + 1) as u32;
        match worksheet_write_string(&mut ws, row, 0, entry.old_name.as_str()) {
            Ok(()) => {},
            Err(e) => return Err(write_error(e)),
        }
        match worksheet_write_string(&mut ws, row, 1, entry.new_name.as_str()) {
            Ok(()) => {},
            Err(e) => return Err(write_error(e)),
        }
        match worksheet_write_string(&mut ws, row, 2, status_text(entry.status)) {
            Ok(()) => {},
            Err(e) => return Err(write_error(e)),
        }
        match &entry.error {
            Some(err) => {
                match worksheet_write_string(&mut ws, row, 3, err.as_str()) {
                    Ok(()) => {},
                    Err(e) => return Err(write_error(e)),
                }
            },
            None => {},
        }
        i = i + 1;
    }
    let mut wb = workbook_new();
    workbook_push_worksheet(&mut wb, ws);
    assert(book_sheets(wb) =~= seq![(LEDGER_SHEET@, ledger_cells(es, es.len()))]);
    assert(book_widths(wb) =~= seq![no_widths()]);
    Ok(wb)
}

/// The spreadsheet copy of a ledger, as the bytes of an xlsx file; refused when
/// an entry does not fit its row.
pub fn ledger_bytes(ledger: &Ledger) -> (r: Result<Vec<u8>, ExcelError>)
    ensures
        !ledger_fits(entries_view(ledger.entries@)) ==> r is Err,
        r matches Err(e) ==> e is Write,
{
    let mut wb = ledger_workbook(ledger)?;
    workbook_bytes(&mut wb)
}


/// The text at (`r`, `c`) of a sheet whose cells are `cells`: the text written
/// there, or nothing.
pub open spec fn cell_text_at(cells: Map<(u32, u16), Seq<char>>, r: int, c: int) -> Seq<char> {
    if cells.dom().contains((r as u32, c as u16)) {
        cells[(r as u32, c as u16)]
    } else {
        Seq::empty()
    }
}

/// The first `rows` rows and `cols` columns of a sheet, as text.
pub open spec fn cells_grid(cells: Map<(u32, u16), Seq<char>>, rows: nat, cols: nat) -> Seq<
    Seq<Seq<char>>,
> {
    Seq::new(rows, |r: int| Seq::new(cols, |c: int| cell_text_at(cells, r, c)))
}

/// The mapping rows of a list of files that nobody filled in: each file whose
/// name is not blank, with an empty new name.
pub open spec fn listed_rows(files: Seq<FileEntry>) -> Seq<(Seq<char>, Seq<char>)>
    decreases files.len(),
{
    if files.len() == 0 {
        Seq::empty()
    } else {
        let prev = listed_rows(files.drop_last());
        if trim(files.last().name@).len() == 0 {
            prev
        } else {
            prev.push((files.last().name@, Seq::empty()))
        }
    }
}

proof fn lemma_list_cells(files: Seq<FileEntry>, k: nat)
    requires
        k <= files.len(),
        files.len() < row_limit(),
        list_fits(files),
    ensures
        cell_text_at(list_cells(files, k), 0, 0) == COL_OLD@,
        cell_text_at(list_cells(files, k), 0, 1) == COL_NEW@,
        forall|r: int|
            1 <= r <= k ==> #[trigger] cell_text_at(list_cells(files, k), r, 0) == files[r
                - 1].name@,
        forall|r: int|
            k < r < row_limit() ==> #[trigger] cell_text_at(list_cells(files, k), r, 0)
                == Seq::<char>::empty(),
        forall|r: int|
            1 <= r < row_limit() ==> #[trigger] cell_text_at(list_cells(files, k), r, 1)
                == Seq::<char>::empty(),
    decreases k,
{
    if k > 0 {
        lemma_list_cells(files, (k - 1) as nat);
        let prev = list_cells(files, (k - 1) as nat);
        let name = files[k - 1].name@;
        assert(files[k - 1] == files[(k - 1) as int]);
        if name.len() > 0 {
            assert(list_cells(files, k) == prev.insert((k as u32, 0u16), name));
            assert forall|r: int| 1 <= r <= k implies #[trigger] cell_text_at(
                list_cells(files, k),
                r,
                0,
            ) == files[r - 1].name@ by {
                assert(r as u32 == r);
                assert(k as u32 == k);
                if r < k {
                    assert((r as u32, 0u16) != (k as u32, 0u16));
                    assert(cell_text_at(prev, r, 0) == files[r - 1].name@);
                } else {
                    assert((r as u32, 0u16) == (k as u32, 0u16));
                }
            }
            assert forall|r: int| k < r < row_limit() implies #[trigger] cell_text_at(
                list_cells(files, k),
                r,
                0,
            ) == Seq::<char>::empty() by {
                assert((r as u32, 0u16) != (k as u32, 0u16));
                assert(cell_text_at(prev, r, 0) == Seq::<char>::empty());
            }
            assert forall|r: int| 1 <= r < row_limit() implies #[trigger] cell_text_at(
                list_cells(files, k),
                r,
                1,
            ) == Seq::<char>::empty() by {
                assert((r as u32, 1u16) != (k as u32, 0u16));
                assert(cell_text_at(prev, r, 1) == Seq::<char>::empty());
            }
            assert((0u32, 0u16) != (k as u32, 0u16));
            assert((0u32, 1u16) != (k as u32, 0u16));
        } else {
            assert(list_cells(files, k) == prev);
            assert forall|r: int| 1 <= r <= k implies #[trigger] cell_text_at(
                list_cells(files, k),
                r,
                0,
            ) == files[r - 1].name@ by {
                if r == k {
                    assert(cell_text_at(prev, r, 0) == Seq::<char>::empty());
                    assert(name =~= Seq::<char>::empty());
                }
            }
        }
    }
}

proof fn lemma_listed_rows(files: Seq<FileEntry>, g: Seq<Seq<Seq<char>>>, k: nat)
    requires
        1 <= k <= files.len() + 1,
        g.len() == files.len() + 1,
        forall|r: int| 0 <= r < g.len() ==> (#[trigger] g[r]).len() == 2,
        forall|r: int| 1 <= r < g.len() ==> (#[trigger] g[r])[0] == files[r - 1].name@,
        forall|r: int| 1 <= r < g.len() ==> (#[trigger] g[r])[1] == Seq::<char>::empty(),
    ensures
        mapping_rows(g, 0, 1, 0, k) == listed_rows(files.take(k - 1)),
    decreases k,
{
    if k == 1 {
        assert(mapping_rows(g, 0, 1, 0, 0) == Seq::<(Seq<char>, Seq<char>)>::empty());
        assert(files.take(0) =~= Seq::<FileEntry>::empty());
    } else {
        lemma_listed_rows(files, g, (k - 1) as nat);
        let r = k - 1;
        assert(g[r] == g[r as int]);
        assert(cell_or_empty(g[r], 0) == files[r - 1].name@);
        assert(cell_or_empty(g[r], 1) == Seq::<char>::empty());
        assert(trim(Seq::<char>::empty()) == Seq::<char>::empty());
        assert(files.take(k - 1).drop_last() =~= files.take(k - 2));
        assert(files.take(k - 1).last() == files[k - 2]);
    }
}

/// Reading back the list sheet of an exported table that nobody filled in gives
/// every file whose name is not blank, in order, with an empty new name: the
/// header row is found at the top, with the current names in the first column and
/// the new names in the second. (The sheet is read as a grid of its rows, a cell
/// with no text reading as empty.)
pub proof fn law_export_import_roundtrip(files: Seq<FileEntry>)
    requires
        list_fits(files),
        files.len() < row_limit(),
    ensures
        ({
            let g = cells_grid(mapping_sheets(files)[1].1, (files.len() + 1) as nat, 2);
            &&& header_scan(g, g.len()) == (Some(0int), Some(1int), Some(0int))
            &&& mapping_rows(g, 0, 1, 0, g.len()) == listed_rows(files)
        }),
{
    let n = files.len();
    let cells = list_cells(files, n);
    assert(mapping_sheets(files)[1].1 == cells);
    let g = cells_grid(cells, (n + 1) as nat, 2);
    lemma_list_cells(files, n);
    reveal_strlit("当前文件名称");
    reveal_strlit("新文件名称");
    assert(COL_OLD@ != COL_NEW@) by {
        assert(COL_OLD@.len() != COL_NEW@.len());
    }
    assert(g[0][0] == COL_OLD@);
    assert(g[0][1] == COL_NEW@);
    let st0: HeaderScan = (None, None, None);
    assert(header_row_scan(g[0], 0, 0, st0) == st0);
    assert(header_cell(st0, 0, 0, COL_OLD@) == (Some(0int), None::<int>, Some(0int)));
    assert(header_row_scan(g[0], 0, 1, st0) == (Some(0int), None::<int>, Some(0int)));
    assert(header_row_scan(g[0], 0, 2, st0) == (Some(0int), Some(1int), Some(0int)));
    assert(header_scan(g, 0) == st0);
    assert(header_scan(g, 1) == (Some(0int), Some(1int), Some(0int)));
    lemma_header_scan_stops(g, 1, g.len());
    assert forall|r: int| 1 <= r < g.len() implies (#[trigger] g[r])[0] == files[r - 1].name@ by {
        assert(cell_text_at(cells, r, 0) == files[r - 1].name@);
    }
    assert forall|r: int| 1 <= r < g.len() implies (#[trigger] g[r])[1] == Seq::<char>::empty() by {
        assert(cell_text_at(cells, r, 1) == Seq::<char>::empty());
    }
    lemma_listed_rows(files, g, (n + 1) as nat);
    assert(files.take(n as int) =~= files);
}


proof fn lemma_write_at(
    before: Map<(u32, u16), Seq<char>>,
    row: u32,
    col: u16,
    t: Seq<char>,
    r: int,
    c: int,
)
    requires
        row < row_limit(),
        col < col_limit(),
        t.len() <= cell_text_limit(),
        0 <= r < row_limit(),
        0 <= c < col_limit(),
    ensures
        cell_text_at(write_outcome(before, row, col, t).1, r, c) == if r == row && c == col
            && t.len() > 0 {
            t
        } else {
            cell_text_at(before, r, c)
        },
{
    assert(r as u32 == r);
    assert(c as u16 == c);
    if !(r == row && c == col) {
        assert((r as u32, c as u16) != (row, col));
    }
}

/// The text the ledger sheet holds in column `c` for entry `e`: the current
/// name, the new name, the status word, and the error (nothing without one).
pub open spec fn ledger_row_text(e: EntryView, c: int) -> Seq<char> {
    if c == 0 {
        e.old_name
    } else if c == 1 {
        e.new_name
    } else if c == 2 {
        match e.status {
            EntryStatus::Planned => "planned"@,
            EntryStatus::Success => "success"@,
            EntryStatus::Failed => "failed"@,
            EntryStatus::RolledBack => "rolled_back"@,
        }
    } else {
        match e.error {
            Some(err) => err,
            None => Seq::empty(),
        }
    }
}

proof fn lemma_ledger_cells(es: Seq<EntryView>, k: nat)
    requires
        ledger_fits(es),
        k <= es.len(),
    ensures
        cell_text_at(ledger_cells(es, k), 0, 0) == COL_OLD@,
        cell_text_at(ledger_cells(es, k), 0, 1) == COL_NEW@,
        cell_text_at(ledger_cells(es, k), 0, 2) == COL_STATUS@,
        cell_text_at(ledger_cells(es, k), 0, 3) == COL_ERROR@,
        forall|r: int, c: int|
            1 <= r <= k && 0 <= c < 4 ==> #[trigger] cell_text_at(ledger_cells(es, k), r, c)
                == ledger_row_text(es[r - 1], c),
        forall|r: int, c: int|
            k < r < row_limit() && 0 <= c < 4 ==> #[trigger] cell_text_at(ledger_cells(es, k), r, c)
                == Seq::<char>::empty(),
    decreases k,
{
    reveal_strlit("planned");
    reveal_strlit("success");
    reveal_strlit("failed");
    reveal_strlit("rolled_back");
    if k == 0 {
        let m = ledger_cells(es, 0);
        assert forall|r: int, c: int| 0 < r < row_limit() && 0 <= c < 4 implies #[trigger] cell_text_at(
            m,
            r,
            c,
        ) == Seq::<char>::empty() by {
            assert(r as u32 == r);
            assert((r as u32, c as u16) != (0u32, 0u16));
            assert((r as u32, c as u16) != (0u32, 1u16));
            assert((r as u32, c as u16) != (0u32, 2u16));
            assert((r as u32, c as u16) != (0u32, 3u16));
        }
        assert((0u32, 0u16) != (0u32, 1u16));
    } else {
        let j = (k - 1) as nat;
        lemma_ledger_cells(es, j);
        let e = es[j as int];
        assert(es[k - 1] == e);
        let row = k as u32;
        assert(row == k);
        let m0 = ledger_cells(es, j);
        let m1 = write_outcome(m0, row, 0u16, e.old_name).1;
        let m2 = write_outcome(m1, row, 1u16, e.new_name).1;
        let m3 = write_outcome(m2, row, 2u16, status_label(e.status)).1;
        let m4 = match e.error {
            Some(err) => write_outcome(m3, row, 3u16, err).1,
            None => m3,
        };
        assert(ledger_cells(es, k) == m4);
        let err_text = match e.error {
            Some(err) => err,
            None => Seq::<char>::empty(),
        };
        assert forall|r: int, c: int| 0 <= r < row_limit() && 0 <= c < 4 implies #[trigger] cell_text_at(
            m4,
            r,
            c,
        ) == if r == k {
            ledger_row_text(e, c)
        } else {
            cell_text_at(m0, r, c)
        } by {
            lemma_write_at(m0, row, 0u16, e.old_name, r, c);
            lemma_write_at(m1, row, 1u16, e.new_name, r, c);
            lemma_write_at(m2, row, 2u16, status_label(e.status), r, c);
            match e.error {
                Some(err) => {
                    lemma_write_at(m3, row, 3u16, err, r, c);
                },
                None => {},
            }
            if r == k {
                assert(cell_text_at(m0, r, c) == Seq::<char>::empty());
            }
        }
        assert forall|r: int, c: int| 1 <= r <= k && 0 <= c < 4 implies #[trigger] cell_text_at(
            ledger_cells(es, k),
            r,
            c,
        ) == ledger_row_text(es[r - 1], c) by {
            assert(cell_text_at(m4, r, c) == if r == k {
                ledger_row_text(e, c)
            } else {
                cell_text_at(m0, r, c)
            });
        }
        assert forall|r: int, c: int| k < r < row_limit() && 0 <= c < 4 implies #[trigger] cell_text_at(
            ledger_cells(es, k),
            r,
            c,
        ) == Seq::<char>::empty() by {
            assert(cell_text_at(m4, r, c) == cell_text_at(m0, r, c));
        }
        assert(cell_text_at(m4, 0, 0) == cell_text_at(m0, 0, 0));
        assert(cell_text_at(m4, 0, 1) == cell_text_at(m0, 0, 1));
        assert(cell_text_at(m4, 0, 2) == cell_text_at(m0, 0, 2));
        assert(cell_text_at(m4, 0, 3) == cell_text_at(m0, 0, 3));
    }
}

/// The ledger sheet lists the ledger row by row under its headers. Its first
/// row holds the headers 当前文件名称, 新文件名称, 状态 and 错误; row `k + 1`
/// holds entry `k`: its current name under 当前文件名称, its new name under
/// 新文件名称, its status word (`planned`, `success`, `failed` or
/// `rolled_back`) under 状态 and its error, if any, under 错误 (a cell with no
/// text reading as empty).
pub proof fn law_ledger_sheet_lists_entries(es: Seq<EntryView>)
    requires
        ledger_fits(es),
    ensures
        ({
            let cells = ledger_cells(es, es.len());
            &&& cell_text_at(cells, 0, 0) == COL_OLD@
            &&& cell_text_at(cells, 0, 1) == COL_NEW@
            &&& cell_text_at(cells, 0, 2) == COL_STATUS@
            &&& cell_text_at(cells, 0, 3) == COL_ERROR@
            &&& forall|k: int|
                0 <= k < es.len() ==> {
                    &&& cell_text_at(cells, k + 1, 0) == (#[trigger] es[k]).old_name
                    &&& cell_text_at(cells, k + 1, 1) == es[k].new_name
                    &&& cell_text_at(cells, k + 1, 2) == match es[k].status {
                        EntryStatus::Planned => "planned"@,
                        EntryStatus::Success => "success"@,
                        EntryStatus::Failed => "failed"@,
                        EntryStatus::RolledBack => "rolled_back"@,
                    }
                    &&& cell_text_at(cells, k + 1, 3) == match es[k].error {
                        Some(err) => err,
                        None => Seq::<char>::empty(),
                    }
                }
        }),
{
    lemma_ledger_cells(es, es.len());
    let cells = ledger_cells(es, es.len());
    assert forall|k: int| 0 <= k < es.len() implies {
        &&& cell_text_at(cells, k + 1, 0) == (#[trigger] es[k]).old_name
        &&& cell_text_at(cells, k + 1, 1) == es[k].new_name
        &&& cell_text_at(cells, k + 1, 2) == ledger_row_text(es[k], 2)
        &&& cell_text_at(cells, k + 1, 3) == ledger_row_text(es[k], 3)
    } by {
        assert(cell_text_at(cells, k + 1, 0) == ledger_row_text(es[k + 1 - 1], 0));
        assert(cell_text_at(cells, k + 1, 1) == ledger_row_text(es[k + 1 - 1], 1));
        assert(cell_text_at(cells, k + 1, 2) == ledger_row_text(es[k + 1 - 1], 2));
        assert(cell_text_at(cells, k + 1, 3) == ledger_row_text(es[k + 1 - 1], 3));
    }
}

} // verus!

//! The tables of a run, as comma-separated values.

use crate::arithmetic::{is_fixed, Arithmetic};
use crate::cores::{ids_of, texts, CoreId};
use crate::double::Double;
use crate::text::{
    decimal, decimal_text, hexadecimal, hexadecimal_text, joined, lemma_joined_flat,
    lemma_joined_push,
};
use vstd::prelude::*;
use vstd::string::*;

verus! {

/// The statistics of one address for one pair of cores.
#[derive(Clone, Copy, PartialEq, Eq, Structural, Debug)]
pub struct PerAddressRow {
    pub ping_core: usize,
    pub pong_core: usize,
    /// The NUMA node of the ping core.
    pub ping_numa: usize,
    /// The NUMA node of the pong core.
    pub pong_numa: usize,
    /// The NUMA node where the memory is.
    pub mem_numa: usize,
    pub address: usize,
    pub vaddr: usize,
    pub mean: Double,
    pub median: Double,
    pub min: Double,
    pub max: Double,
    pub cv_percent: Double,
}

/// The statistics of one pair of cores, over its addresses.
#[derive(Clone, Copy, PartialEq, Eq, Structural, Debug)]
pub struct PerPairSummary {
    pub ping_core: usize,
    pub pong_core: usize,
    /// The NUMA node of the ping core.
    pub ping_numa: usize,
    /// The NUMA node of the pong core.
    pub pong_numa: usize,
    /// The NUMA node where the memory is.
    pub mem_numa: usize,
    pub mean_of_means: Double,
    pub mean_of_medians: Double,
    pub min: Double,
    pub max: Double,
    pub cv_percent: Double,
}

/// The name of a table file.
pub open spec fn path(prefix: Seq<char>, bench_name: Seq<char>, suffix: Seq<char>) -> Seq<char> {
    prefix + "."@ + bench_name + "."@ + suffix + ".csv"@
}

/// The name of a table file: the prefix, the name of the benchmark and the suffix,
/// joined by dots.
pub fn csv_path(prefix: &str, bench_name: &str, suffix: &str) -> (r: String)
    ensures
        r@ == path(prefix@, bench_name@, suffix@),
{
    let mut r = String::from_str(prefix);
    r.append(".");
    r.append(bench_name);
    r.append(".");
    r.append(suffix);
    r.append(".csv");
    r
}

/// `fields`, separated by commas.
pub open spec fn comma_joined(fields: Seq<Seq<char>>) -> Seq<char>
    decreases fields.len(),
{
    if fields.len() == 0 {
        Seq::empty()
    } else if fields.len() == 1 {
        fields[0]
    } else {
        comma_joined(fields.drop_last()) + ","@ + fields.last()
    }
}

/// A line of a table: its fields, separated by commas, and the end of the line.
pub open spec fn csv_line(fields: Seq<Seq<char>>) -> Seq<char> {
    comma_joined(fields) + "\n"@
}

/// The columns of the table of addresses.
pub open spec fn per_address_columns() -> Seq<Seq<char>> {
    seq![
        "ping_core"@,
        "pong_core"@,
        "ping_numa"@,
        "pong_numa"@,
        "mem_numa"@,
        "address"@,
        "vaddr"@,
        "mean_latency"@,
        "median_latency"@,
        "min_latency"@,
        "max_latency"@,
        "cv_percent"@,
    ]
}

/// The columns of the table of pairs.
pub open spec fn per_pair_columns() -> Seq<Seq<char>> {
    seq![
        "ping_core"@,
        "pong_core"@,
        "ping_numa"@,
        "pong_numa"@,
        "mem_numa"@,
        "mean_of_means"@,
        "mean_of_medians"@,
        "min_latency"@,
        "max_latency"@,
        "cv_percent"@,
    ]
}

/// Whether `fields` are those of `row`: its numbers, the virtual address in
/// hexadecimal, and its statistics with two decimals.
pub open spec fn are_per_address_fields<A: Arithmetic>(
    arith: &A,
    row: PerAddressRow,
    fields: Seq<Seq<char>>,
) -> bool {
    &&& fields.len() == 12
    &&& fields[0] == decimal(row.ping_core as nat)
    &&& fields[1] == decimal(row.pong_core as nat)
    &&& fields[2] == decimal(row.ping_numa as nat)
    &&& fields[3] == decimal(row.pong_numa as nat)
    &&& fields[4] == decimal(row.mem_numa as nat)
    &&& fields[5] == decimal(row.address as nat)
    &&& fields[6] == "0x"@ + hexadecimal(row.vaddr as nat)
    &&& is_fixed(arith, row.mean, 2, fields[7])
    &&& is_fixed(arith, row.median, 2, fields[8])
    &&& is_fixed(arith, row.min, 2, fields[9])
    &&& is_fixed(arith, row.max, 2, fields[10])
    &&& is_fixed(arith, row.cv_percent, 2, fields[11])
}

/// Whether `fields` are those of `row`: its numbers, and its statistics with two
/// decimals.
pub open spec fn are_per_pair_fields<A: Arithmetic>(
    arith: &A,
    row: PerPairSummary,
    fields: Seq<Seq<char>>,
) -> bool {
    &&& fields.len() == 10
    &&& fields[0] == decimal(row.ping_core as nat)
    &&& fields[1] == decimal(row.pong_core as nat)
    &&& fields[2] == decimal(row.ping_numa as nat)
    &&& fields[3] == decimal(row.pong_numa as nat)
    &&& fields[4] == decimal(row.mem_numa as nat)
    &&& is_fixed(arith, row.mean_of_means, 2, fields[5])
    &&& is_fixed(arith, row.mean_of_medians, 2, fields[6])
    &&& is_fixed(arith, row.min, 2, fields[7])
    &&& is_fixed(arith, row.max, 2, fields[8])
    &&& is_fixed(arith, row.cv_percent, 2, fields[9])
}

/// Whether `line` is the line of `row`.
pub open spec fn is_per_address_line<A: Arithmetic>(
    arith: &A,
    row: PerAddressRow,
    line: Seq<char>,
) -> bool {
    exists|fields: Seq<Seq<char>>| #[trigger]
        are_per_address_fields(arith, row, fields) && line == csv_line(fields)
}

/// Whether `line` is the line of `row`.
pub open spec fn is_per_pair_line<A: Arithmetic>(
    arith: &A,
    row: PerPairSummary,
    line: Seq<char>,
) -> bool {
    exists|fields: Seq<Seq<char>>| #[trigger]
        are_per_pair_fields(arith, row, fields) && line == csv_line(fields)
}

/// Whether `lines` are the lines of `rows`.
pub open spec fn are_per_address_lines<A: Arithmetic>(
    arith: &A,
    rows: Seq<PerAddressRow>,
    lines: Seq<Seq<char>>,
) -> bool {
    &&& lines.len() == rows.len()
    &&& forall|i: int|
        0 <= i < rows.len() ==> #[trigger] is_per_address_line(arith, rows[i], lines[i])
}

/// Whether `t` is the table of addresses: its first line, and a line for each row.
pub open spec fn is_per_address_table<A: Arithmetic>(
    arith: &A,
    rows: Seq<PerAddressRow>,
    t: Seq<char>,
) -> bool {
    exists|lines: Seq<Seq<char>>| #[trigger]
        are_per_address_lines(arith, rows, lines) && t == csv_line(per_address_columns()) + joined(lines)
}

/// Whether `lines` are the lines of `rows`.
pub open spec fn are_per_pair_lines<A: Arithmetic>(
    arith: &A,
    rows: Seq<PerPairSummary>,
    lines: Seq<Seq<char>>,
) -> bool {
    &&& lines.len() == rows.len()
    &&& forall|i: int|
        0 <= i < rows.len() ==> #[trigger] is_per_pair_line(arith, rows[i], lines[i])
}

/// Whether `t` is the table of pairs: its first line, and a line for each row.
pub open spec fn is_per_pair_table<A: Arithmetic>(
    arith: &A,
    rows: Seq<PerPairSummary>,
    t: Seq<char>,
) -> bool {
    exists|lines: Seq<Seq<char>>| #[trigger]
        are_per_pair_lines(arith, rows, lines) && t == csv_line(per_pair_columns()) + joined(lines)
}

/// A line of a table.
fn csv_line_text(fields: &Vec<String>) -> (r: String)
    ensures
        r@ == csv_line(texts(fields@)),
{
    let ghost all = texts(fields@);
    let mut r = String::new();
    let mut i: usize = 0;
    while i < fields.len()
        invariant
            i <= fields.len(),
            all == texts(fields@),
            r@ == comma_joined(all.take(i as int)),
        decreases fields.len() - i,
    {
        if i > 0 {
            r.append(",");
        }
        r.append(fields[i].as_str());
        proof {
            assert(all.take(i + 1).drop_last() =~= all.take(i as int));
            if i == 0 {
                assert(r@ =~= all[0]);
            }
        }
        i = i + 1;
    }
    assert(all.take(fields.len() as int) =~= all);
    r.append("\n");
    r
}

/// `a` with two decimals.
fn two_decimals<A: Arithmetic>(arith: &A, a: Double) -> (r: String)
    ensures
        is_fixed(arith, a, 2, r@),
{
    let r = arith.fixed(a, 2);
    assert(call_ensures(A::fixed, (arith, a, 2usize), r));
    r
}

/// The first line of the table of addresses.
pub fn per_address_header() -> (r: String)
    ensures
        r@ == csv_line(per_address_columns()),
{
    let mut fields: Vec<String> = Vec::new();
    fields.push(String::from_str("ping_core"));
    fields.push(String::from_str("pong_core"));
    fields.push(String::from_str("ping_numa"));
    fields.push(String::from_str("pong_numa"));
    fields.push(String::from_str("mem_numa"));
    fields.push(String::from_str("address"));
    fields.push(String::from_str("vaddr"));
    fields.push(String::from_str("mean_latency"));
    fields.push(String::from_str("median_latency"));
    fields.push(String::from_str("min_latency"));
    fields.push(String::from_str("max_latency"));
    fields.push(String::from_str("cv_percent"));
    assert(texts(fields@) =~= per_address_columns());
    csv_line_text(&fields)
}

/// The first line of the table of pairs.
pub fn per_pair_header() -> (r: String)
    ensures
        r@ == csv_line(per_pair_columns()),
{
    let mut fields: Vec<String> = Vec::new();
    fields.push(String::from_str("ping_core"));
    fields.push(String::from_str("pong_core"));
    fields.push(String::from_str("ping_numa"));
    fields.push(String::from_str("pong_numa"));
    fields.push(String::from_str("mem_numa"));
    fields.push(String::from_str("mean_of_means"));
    fields.push(String::from_str("mean_of_medians"));
    fields.push(String::from_str("min_latency"));
    fields.push(String::from_str("max_latency"));
    fields.push(String::from_str("cv_percent"));
    assert(texts(fields@) =~= per_pair_columns());
    csv_line_text(&fields)
}

/// The line of `row` in the table of addresses.
pub fn per_address_line<A: Arithmetic>(row: &PerAddressRow, arith: &A) -> (r: String)
    ensures
        is_per_address_line(arith, *row, r@),
{
    let mut vaddr = String::from_str("0x");
    vaddr.append(hexadecimal_text(row.vaddr).as_str());
    let mut fields: Vec<String> = Vec::new();
    fields.push(decimal_text(row.ping_core));
    fields.push(decimal_text(row.pong_core));
    fields.push(decimal_text(row.ping_numa));
    fields.push(decimal_text(row.pong_numa));
    fields.push(decimal_text(row.mem_numa));
    fields.push(decimal_text(row.address));
    fields.push(vaddr);
    fields.push(two_decimals(arith, row.mean));
    fields.push(two_decimals(arith, row.median));
    fields.push(two_decimals(arith, row.min));
    fields.push(two_decimals(arith, row.max));
    fields.push(two_decimals(arith, row.cv_percent));
    assert(are_per_address_fields(arith, *row, texts(fields@)));
    csv_line_text(&fields)
}

/// The line of `row` in the table of pairs.
pub fn per_pair_line<A: Arithmetic>(row: &PerPairSummary, arith: &A) -> (r: String)
    ensures
        is_per_pair_line(arith, *row, r@),
{
    let mut fields: Vec<String> = Vec::new();
    fields.push(decimal_text(row.ping_core));
    fields.push(decimal_text(row.pong_core));
    fields.push(decimal_text(row.ping_numa));
    fields.push(decimal_text(row.pong_numa));
    fields.push(decimal_text(row.mem_numa));
    fields.push(two_decimals(arith, row.mean_of_means));
    fields.push(two_decimals(arith, row.mean_of_medians));
    fields.push(two_decimals(arith, row.min));
    fields.push(two_decimals(arith, row.max));
    fields.push(two_decimals(arith, row.cv_percent));
    assert(are_per_pair_fields(arith, *row, texts(fields@)));
    csv_line_text(&fields)
}

/// The table of addresses.
pub fn per_address_table<A: Arithmetic>(rows: &Vec<PerAddressRow>, arith: &A) -> (r: String)
    ensures
        is_per_address_table(arith, rows@, r@),
{
    let mut r = per_address_header();
    let ghost mut lines: Seq<Seq<char>> = Seq::empty();
    let mut i: usize = 0;
    while i < rows.len()
        invariant
            i <= rows.len(),
            are_per_address_lines(arith, rows@.take(i as int), lines),
            r@ =~= csv_line(per_address_columns()) + joined(lines),
        decreases rows.len() - i,
    {
        let line = per_address_line(&rows[i], arith);
        r.append(line.as_str());
        proof {
            lemma_joined_push(lines, line@);
            let longer = rows@.take(i + 1);
            assert forall|k: int| 0 <= k < longer.len() implies #[trigger] is_per_address_line(
                arith,
                longer[k],
                lines.push(line@)[k],
            ) by {
                if k < i {
                    assert(is_per_address_line(arith, rows@.take(i as int)[k], lines[k]));
                }
            }
            lines = lines.push(line@);
        }
        i = i + 1;
    }
    assert(rows@.take(rows.len() as int) =~= rows@);
    r
}

/// The table of pairs.
pub fn per_pair_table<A: Arithmetic>(rows: &Vec<PerPairSummary>, arith: &A) -> (r: String)
    ensures
        is_per_pair_table(arith, rows@, r@),
{
    let mut r = per_pair_header();
    let ghost mut lines: Seq<Seq<char>> = Seq::empty();
    let mut i: usize = 0;
    while i < rows.len()
        invariant
            i <= rows.len(),
            are_per_pair_lines(arith, rows@.take(i as int), lines),
            r@ =~= csv_line(per_pair_columns()) + joined(lines),
        decreases rows.len() - i,
    {
        let line = per_pair_line(&rows[i], arith);
        r.append(line.as_str());
        proof {
            lemma_joined_push(lines, line@);
            let longer = rows@.take(i + 1);
            assert forall|k: int| 0 <= k < longer.len() implies #[trigger] is_per_pair_line(
                arith,
                longer[k],
                lines.push(line@)[k],
            ) by {
                if k < i {
                    assert(is_per_pair_line(arith, rows@.take(i as int)[k], lines[k]));
                }
            }
            lines = lines.push(line@);
        }
        i = i + 1;
    }
    assert(rows@.take(rows.len() as int) =~= rows@);
    r
}

/// A table file: its name and what it holds.
pub struct CsvFile {
    pub path: String,
    pub text: String,
}

/// The two table files of a run: that of the addresses and that of the pairs.
pub fn csv_files<A: Arithmetic>(
    prefix: &str,
    bench_name: &str,
    per_address_rows: &Vec<PerAddressRow>,
    per_pair_summaries: &Vec<PerPairSummary>,
    arith: &A,
) -> (r: (CsvFile, CsvFile))
    ensures
        r.0.path@ == path(prefix@, bench_name@, "per_address"@),
        is_per_address_table(arith, per_address_rows@, r.0.text@),
        r.1.path@ == path(prefix@, bench_name@, "summary"@),
        is_per_pair_table(arith, per_pair_summaries@, r.1.text@),
        call_ensures(per_address_table::<A>, (per_address_rows, arith), r.0.text),
        call_ensures(per_pair_table::<A>, (per_pair_summaries, arith), r.1.text),
{
    let addresses = CsvFile {
        path: csv_path(prefix, bench_name, "per_address"),
        text: per_address_table(per_address_rows, arith),
    };
    let pairs = CsvFile {
        path: csv_path(prefix, bench_name, "summary"),
        text: per_pair_table(per_pair_summaries, arith),
    };
    (addresses, pairs)
}

/// What is printed when a table file is made.
pub fn created_message(path: &str) -> (r: String)
    ensures
        r@ == "    Writing CSV: "@ + path@ + "\n"@,
{
    let mut r = String::from_str("    Writing CSV: ");
    r.append(path);
    r.append("\n");
    r
}

/// What is printed when a table file cannot be made.
pub fn failed_message(path: &str, error: &str) -> (r: String)
    ensures
        r@ == "    ERROR: Failed to create "@ + path@ + ": "@ + error@ + "\n"@,
{
    let mut r = String::from_str("    ERROR: Failed to create ");
    r.append(path);
    r.append(": ");
    r.append(error);
    r.append("\n");
    r
}

/// The cell of the core at `i` in the first line of the matrix: its number, and a
/// comma unless it is the last core.
pub open spec fn matrix_header_cell(ids: Seq<usize>, i: int) -> Seq<char> {
    if i + 1 < ids.len() {
        decimal(ids[i] as nat) + ","@
    } else {
        decimal(ids[i] as nat)
    }
}

/// The first line of the matrix: an empty cell, and the numbers of the cores.
pub open spec fn matrix_header(ids: Seq<usize>) -> Seq<char> {
    ","@ + joined(Seq::new(ids.len(), |i: int| matrix_header_cell(ids, i))) + "\n"@
}

/// Whether `cell` is the cell of the latency `v`: a comma, and the latency with one
/// decimal unless there is none.
pub open spec fn is_matrix_cell<A: Arithmetic>(arith: &A, v: Double, cell: Seq<char>) -> bool {
    if v.nan() {
        cell == ","@
    } else {
        exists|t: Seq<char>| #[trigger] is_fixed(arith, v, 1, t) && cell == ","@ + t
    }
}

/// Whether `cells` are the cells of `row`.
pub open spec fn are_matrix_cells<A: Arithmetic>(
    arith: &A,
    row: Seq<Double>,
    cells: Seq<Seq<char>>,
) -> bool {
    &&& cells.len() == row.len()
    &&& forall|j: int| 0 <= j < row.len() ==> #[trigger] is_matrix_cell(arith, row[j], cells[j])
}

/// Whether `line` is the line of the core numbered `id`: its number, and the cells
/// of `row`.
pub open spec fn is_matrix_line<A: Arithmetic>(
    arith: &A,
    id: usize,
    row: Seq<Double>,
    line: Seq<char>,
) -> bool {
    exists|cells: Seq<Seq<char>>| #[trigger]
        are_matrix_cells(arith, row, cells) && line == decimal(id as nat) + joined(cells) + "\n"@
}

/// Whether `lines` are the lines of the matrix.
pub open spec fn are_matrix_lines<A: Arithmetic>(
    arith: &A,
    ids: Seq<usize>,
    matrix: Seq<Seq<Double>>,
    lines: Seq<Seq<char>>,
) -> bool {
    &&& lines.len() == matrix.len()
    &&& forall|i: int|
        0 <= i < matrix.len() ==> #[trigger] is_matrix_line(arith, ids[i], matrix[i], lines[i])
}

/// Whether `t` is the matrix of latencies between the cores numbered `ids`.
pub open spec fn is_matrix_table<A: Arithmetic>(
    arith: &A,
    ids: Seq<usize>,
    matrix: Seq<Seq<Double>>,
    t: Seq<char>,
) -> bool {
    exists|lines: Seq<Seq<char>>| #[trigger]
        are_matrix_lines(arith, ids, matrix, lines) && t == matrix_header(ids) + joined(lines)
}

/// The rows of a matrix.
pub open spec fn rows_of(matrix: Seq<Vec<Double>>) -> Seq<Seq<Double>> {
    matrix.map_values(|row: Vec<Double>| row@)
}

/// The first line of the matrix.
fn matrix_header_text(cores: &Vec<CoreId>) -> (r: String)
    ensures
        r@ == matrix_header(ids_of(cores@)),
{
    let ghost ids = ids_of(cores@);
    let ghost cells = Seq::new(ids.len(), |i: int| matrix_header_cell(ids, i));
    let mut r = String::from_str(",");
    let mut i: usize = 0;
    assert(cells.take(0) =~= Seq::empty());
    while i < cores.len()
        invariant
            i <= cores.len(),
            ids == ids_of(cores@),
            cells == Seq::new(ids.len(), |i: int| matrix_header_cell(ids, i)),
            r@ =~= ","@ + joined(cells.take(i as int)),
        decreases cores.len() - i,
    {
        r.append(decimal_text(cores[i].id).as_str());
        if i + 1 < cores.len() {
            r.append(",");
        }
        proof {
            lemma_joined_push(cells.take(i as int), cells[i as int]);
            assert(cells.take(i as int).push(cells[i as int]) =~= cells.take(i + 1));
        }
        i = i + 1;
    }
    r.append("\n");
    assert(cells.take(cores.len() as int) =~= cells);
    r
}

/// The cell of the latency `v`.
fn matrix_cell<A: Arithmetic>(arith: &A, v: Double) -> (r: String)
    ensures
        is_matrix_cell(arith, v, r@),
{
    let mut r = String::from_str(",");
    if !v.is_nan() {
        let t = arith.fixed(v, 1);
        assert(call_ensures(A::fixed, (arith, v, 1usize), t));
        assert(is_fixed(arith, v, 1, t@));
        r.append(t.as_str());
    }
    r
}

/// The line of the core numbered `id`.
fn matrix_line<A: Arithmetic>(arith: &A, id: usize, row: &Vec<Double>) -> (r: String)
    ensures
        is_matrix_line(arith, id, row@, r@),
{
    let mut r = decimal_text(id);
    let ghost mut cells: Seq<Seq<char>> = Seq::empty();
    let mut j: usize = 0;
    while j < row.len()
        invariant
            j <= row.len(),
            are_matrix_cells(arith, row@.take(j as int), cells),
            r@ =~= decimal(id as nat) + joined(cells),
        decreases row.len() - j,
    {
        let cell = matrix_cell(arith, row[j]);
        r.append(cell.as_str());
        proof {
            lemma_joined_push(cells, cell@);
            let longer = row@.take(j + 1);
            assert forall|k: int| 0 <= k < longer.len() implies #[trigger] is_matrix_cell(
                arith,
                longer[k],
                cells.push(cell@)[k],
            ) by {
                if k < j {
                    assert(is_matrix_cell(arith, row@.take(j as int)[k], cells[k]));
                }
            }
            cells = cells.push(cell@);
        }
        j = j + 1;
    }
    assert(row@.take(row.len() as int) =~= row@);
    r.append("\n");
    r
}

/// The matrix of latencies between `cores`.
pub fn matrix_table<A: Arithmetic>(
    cores: &Vec<CoreId>,
    matrix: &Vec<Vec<Double>>,
    arith: &A,
) -> (r: String)
    requires
        cores.len() > 0,
        matrix.len() == cores.len(),
    ensures
        is_matrix_table(arith, ids_of(cores@), rows_of(matrix@), r@),
{
    let ghost ids = ids_of(cores@);
    let ghost rows = rows_of(matrix@);
    let mut r = matrix_header_text(cores);
    let ghost mut lines: Seq<Seq<char>> = Seq::empty();
    let mut i: usize = 0;
    while i < cores.len()
        invariant
            i <= cores.len(),
            matrix.len() == cores.len(),
            ids == ids_of(cores@),
            rows == rows_of(matrix@),
            are_matrix_lines(arith, ids, rows.take(i as int), lines),
            r@ =~= matrix_header(ids) + joined(lines),
        decreases cores.len() - i,
    {
        let line = matrix_line(arith, cores[i].id, &matrix[i]);
        r.append(line.as_str());
        proof {
            lemma_joined_push(lines, line@);
            let longer = rows.take(i + 1);
            assert forall|k: int| 0 <= k < longer.len() implies #[trigger] is_matrix_line(
                arith,
                ids[k],
                longer[k],
                lines.push(line@)[k],
            ) by {
                if k < i {
                    assert(is_matrix_line(arith, ids[k], rows.take(i as int)[k], lines[k]));
                }
            }
            lines = lines.push(line@);
        }
        i = i + 1;
    }
    assert(rows.take(cores.len() as int) =~= rows);
    r
}

/// Every line of the table of addresses has a field for each column.
pub proof fn lemma_per_address_columns<A: Arithmetic>(
    arith: &A,
    row: PerAddressRow,
    fields: Seq<Seq<char>>,
)
    requires
        are_per_address_fields(arith, row, fields),
    ensures
        fields.len() == per_address_columns().len(),
{
}

/// Every line of the table of pairs has a field for each column.
pub proof fn lemma_per_pair_columns<A: Arithmetic>(
    arith: &A,
    row: PerPairSummary,
    fields: Seq<Seq<char>>,
)
    requires
        are_per_pair_fields(arith, row, fields),
    ensures
        fields.len() == per_pair_columns().len(),
{
}

/// The first line of the matrix has an empty field and one for each core.
pub proof fn lemma_matrix_header_fields(ids: Seq<usize>)
    requires
        ids.len() > 0,
    ensures
        matrix_header(ids) == csv_line(
            seq![Seq::<char>::empty()] + ids.map_values(|id: usize| decimal(id as nat)),
        ),
{
    let n = ids.len() as int;
    let cells = Seq::new(ids.len(), |i: int| matrix_header_cell(ids, i));
    let numbers = ids.map_values(|id: usize| decimal(id as nat));
    let fields = seq![Seq::<char>::empty()] + numbers;
    lemma_matrix_header_prefix(ids, n - 1);
    lemma_joined_push(cells.take(n - 1), cells[n - 1]);
    assert(cells.take(n - 1).push(cells[n - 1]) =~= cells);
    assert(fields.take(n) =~= fields.drop_last());
    assert(fields.last() == decimal(ids[n - 1] as nat));
    assert(","@ + joined(cells) =~= comma_joined(fields));
}

/// The first cells of the first line of the matrix.
proof fn lemma_matrix_header_prefix(ids: Seq<usize>, k: int)
    requires
        0 <= k < ids.len(),
    ensures
        ","@ + joined(Seq::new(ids.len(), |i: int| matrix_header_cell(ids, i)).take(k))
            == comma_joined(
            (seq![Seq::<char>::empty()] + ids.map_values(|id: usize| decimal(id as nat))).take(
                k + 1,
            ),
        ) + ","@,
    decreases k,
{
    let cells = Seq::new(ids.len(), |i: int| matrix_header_cell(ids, i));
    let fields = seq![Seq::<char>::empty()] + ids.map_values(|id: usize| decimal(id as nat));
    if k == 0 {
        assert(joined(cells.take(0)) =~= Seq::empty());
        assert(fields.take(1)[0] =~= Seq::empty());
        assert(comma_joined(fields.take(1)) =~= Seq::empty());
        assert(","@ + joined(cells.take(0)) =~= ","@);
        assert(comma_joined(fields.take(1)) + ","@ =~= ","@);
    } else {
        lemma_matrix_header_prefix(ids, k - 1);
        lemma_joined_push(cells.take(k - 1), cells[k - 1]);
        assert(cells.take(k - 1).push(cells[k - 1]) =~= cells.take(k));
        assert(fields.take(k + 1).drop_last() =~= fields.take(k));
        assert(fields.take(k + 1).last() == decimal(ids[k - 1] as nat));
        assert(","@ + joined(cells.take(k)) =~= comma_joined(fields.take(k + 1)) + ","@);
    }
}

/// Whether `field` is the field of the latency `v`: the latency with one decimal, or
/// nothing where there is none.
pub open spec fn is_latency_field<A: Arithmetic>(arith: &A, v: Double, field: Seq<char>) -> bool {
    if v.nan() {
        field == Seq::<char>::empty()
    } else {
        is_fixed(arith, v, 1, field)
    }
}

/// Every line of the matrix has a field for the number of its core and one for each
/// latency.
pub proof fn lemma_matrix_line_fields<A: Arithmetic>(
    arith: &A,
    id: usize,
    row: Seq<Double>,
    line: Seq<char>,
) -> (fields: Seq<Seq<char>>)
    requires
        is_matrix_line(arith, id, row, line),
    ensures
        line == csv_line(fields),
        fields.len() == row.len() + 1,
        fields[0] == decimal(id as nat),
        forall|j: int|
            0 <= j < row.len() ==> #[trigger] is_latency_field(arith, row[j], fields[j + 1]),
{
    let cells = choose|cells: Seq<Seq<char>>| #[trigger]
        are_matrix_cells(arith, row, cells) && line == decimal(id as nat) + joined(cells) + "\n"@;
    let fields = Seq::new(
        (row.len() + 1) as nat,
        |k: int|
            if k == 0 {
                decimal(id as nat)
            } else {
                cells[k - 1].skip(1)
            },
    );
    reveal_strlit(",");
    assert forall|j: int| 0 <= j < row.len() implies #[trigger] is_latency_field(
        arith,
        row[j],
        fields[j + 1],
    ) && cells[j] == ","@ + fields[j + 1] by {
        assert(is_matrix_cell(arith, row[j], cells[j]));
        if row[j].nan() {
            assert(cells[j].skip(1) =~= Seq::empty());
        } else {
            let t = choose|t: Seq<char>| #[trigger]
                is_fixed(arith, row[j], 1, t) && cells[j] == ","@ + t;
            assert(cells[j].skip(1) =~= t);
        }
        assert(cells[j] =~= ","@ + fields[j + 1]);
    }
    assert forall|j: int| 0 <= j < cells.len() implies #[trigger] cells[j] == ","@ + fields[j
        + 1] by {
        assert(is_latency_field(arith, row[j], fields[j + 1]));
    }
    lemma_matrix_line_prefix(id, cells, fields, row.len() as int);
    assert(cells.take(row.len() as int) =~= cells);
    assert(fields.take(row.len() as int + 1) =~= fields);
    fields
}

/// The first cells of a line of the matrix, as fields.
proof fn lemma_matrix_line_prefix(
    id: usize,
    cells: Seq<Seq<char>>,
    fields: Seq<Seq<char>>,
    k: int,
)
    requires
        0 <= k <= cells.len(),
        fields.len() == cells.len() + 1,
        fields[0] == decimal(id as nat),
        forall|j: int| 0 <= j < cells.len() ==> #[trigger] cells[j] == ","@ + fields[j + 1],
    ensures
        decimal(id as nat) + joined(cells.take(k)) == comma_joined(fields.take(k + 1)),
    decreases k,
{
    if k == 0 {
        assert(joined(cells.take(0)) =~= Seq::empty());
        assert(decimal(id as nat) + joined(cells.take(0)) =~= fields[0]);
    } else {
        lemma_matrix_line_prefix(id, cells, fields, k - 1);
        lemma_joined_push(cells.take(k - 1), cells[k - 1]);
        assert(cells.take(k - 1).push(cells[k - 1]) =~= cells.take(k));
        assert(fields.take(k + 1).drop_last() =~= fields.take(k));
        assert(cells[k - 1] == ","@ + fields[k]);
        assert(decimal(id as nat) + joined(cells.take(k)) =~= comma_joined(fields.take(k)) + ","@
            + fields[k]);
    }
}

/// Whether `field` is how `arith` shows `a` with the given number of decimals.
pub open spec fn is_shown<A: Arithmetic>(
    arith: &A,
    a: Double,
    decimals: usize,
    field: Seq<char>,
) -> bool {
    exists|t: String| t@ == field && #[trigger] call_ensures(A::fixed, (arith, a, decimals), t)
}

/// A line of a table: a comma before each field but the first, and the end of the line.
pub open spec fn line_of(fields: Seq<Seq<char>>) -> Seq<char> {
    Seq::new(
        fields.len(),
        |k: int|
            if k == 0 {
                fields[k]
            } else {
                ","@ + fields[k]
            },
    ).flatten() + "\n"@
}

/// The fields of a line are those between its commas.
proof fn lemma_csv_line(fields: Seq<Seq<char>>)
    ensures
        csv_line(fields) == line_of(fields),
{
    lemma_comma_joined(fields);
}

/// Fields with a comma before each but the first.
proof fn lemma_comma_joined(fields: Seq<Seq<char>>)
    ensures
        comma_joined(fields) == Seq::new(
            fields.len(),
            |k: int|
                if k == 0 {
                    fields[k]
                } else {
                    ","@ + fields[k]
                },
        ).flatten(),
    decreases fields.len(),
{
    let parts = Seq::new(
        fields.len(),
        |k: int|
            if k == 0 {
                fields[k]
            } else {
                ","@ + fields[k]
            },
    );
    if fields.len() == 0 {
        assert(parts =~= Seq::empty());
    } else {
        let front = fields.drop_last();
        lemma_comma_joined(front);
        let fewer = Seq::new(
            front.len(),
            |k: int|
                if k == 0 {
                    front[k]
                } else {
                    ","@ + front[k]
                },
        );
        fewer.lemma_flatten_push(parts.last());
        assert(parts =~= fewer.push(parts.last()));
        if fields.len() == 1 {
            assert(fewer =~= Seq::empty());
        }
        assert(comma_joined(fields) =~= parts.flatten());
    }
}

/// No two columns have the same name.
proof fn lemma_names_differ()
    ensures
        per_address_columns().no_duplicates(),
        per_pair_columns().no_duplicates(),
        "ping_core"@ != "pong_core"@,
        "ping_core"@ != "ping_numa"@,
        "ping_core"@ != "pong_numa"@,
        "ping_core"@ != "mem_numa"@,
        "ping_core"@ != "address"@,
        "ping_core"@ != "vaddr"@,
        "ping_core"@ != "mean_latency"@,
        "ping_core"@ != "median_latency"@,
        "ping_core"@ != "min_latency"@,
        "ping_core"@ != "max_latency"@,
        "ping_core"@ != "cv_percent"@,
        "pong_core"@ != "ping_numa"@,
        "pong_core"@ != "pong_numa"@,
        "pong_core"@ != "mem_numa"@,
        "pong_core"@ != "address"@,
        "pong_core"@ != "vaddr"@,
        "pong_core"@ != "mean_latency"@,
        "pong_core"@ != "median_latency"@,
        "pong_core"@ != "min_latency"@,
        "pong_core"@ != "max_latency"@,
        "pong_core"@ != "cv_percent"@,
        "ping_numa"@ != "pong_numa"@,
        "ping_numa"@ != "mem_numa"@,
        "ping_numa"@ != "address"@,
        "ping_numa"@ != "vaddr"@,
        "ping_numa"@ != "mean_latency"@,
        "ping_numa"@ != "median_latency"@,
        "ping_numa"@ != "min_latency"@,
        "ping_numa"@ != "max_latency"@,
        "ping_numa"@ != "cv_percent"@,
        "pong_numa"@ != "mem_numa"@,
        "pong_numa"@ != "address"@,
        "pong_numa"@ != "vaddr"@,
        "pong_numa"@ != "mean_latency"@,
        "pong_numa"@ != "median_latency"@,
        "pong_numa"@ != "min_latency"@,
        "pong_numa"@ != "max_latency"@,
        "pong_numa"@ != "cv_percent"@,
        "mem_numa"@ != "address"@,
        "mem_numa"@ != "vaddr"@,
        "mem_numa"@ != "mean_latency"@,
        "mem_numa"@ != "median_latency"@,
        "mem_numa"@ != "min_latency"@,
        "mem_numa"@ != "max_latency"@,
        "mem_numa"@ != "cv_percent"@,
        "address"@ != "vaddr"@,
        "address"@ != "mean_latency"@,
        "address"@ != "median_latency"@,
        "address"@ != "min_latency"@,
        "address"@ != "max_latency"@,
        "address"@ != "cv_percent"@,
        "vaddr"@ != "mean_latency"@,
        "vaddr"@ != "median_latency"@,
        "vaddr"@ != "min_latency"@,
        "vaddr"@ != "max_latency"@,
        "vaddr"@ != "cv_percent"@,
        "mean_latency"@ != "median_latency"@,
        "mean_latency"@ != "min_latency"@,
        "mean_latency"@ != "max_latency"@,
        "mean_latency"@ != "cv_percent"@,
        "median_latency"@ != "min_latency"@,
        "median_latency"@ != "max_latency"@,
        "median_latency"@ != "cv_percent"@,
        "min_latency"@ != "max_latency"@,
        "min_latency"@ != "cv_percent"@,
        "max_latency"@ != "cv_percent"@,
        "ping_core"@ != "mean_of_means"@,
        "ping_core"@ != "mean_of_medians"@,
        "pong_core"@ != "mean_of_means"@,
        "pong_core"@ != "mean_of_medians"@,
        "ping_numa"@ != "mean_of_means"@,
        "ping_numa"@ != "mean_of_medians"@,
        "pong_numa"@ != "mean_of_means"@,
        "pong_numa"@ != "mean_of_medians"@,
        "mem_numa"@ != "mean_of_means"@,
        "mem_numa"@ != "mean_of_medians"@,
        "mean_of_means"@ != "mean_of_medians"@,
        "mean_of_means"@ != "min_latency"@,
        "mean_of_means"@ != "max_latency"@,
        "mean_of_means"@ != "cv_percent"@,
        "mean_of_medians"@ != "min_latency"@,
        "mean_of_medians"@ != "max_latency"@,
        "mean_of_medians"@ != "cv_percent"@,
{
    reveal_strlit("ping_core");
    reveal_strlit("pong_core");
    reveal_strlit("ping_numa");
    reveal_strlit("pong_numa");
    reveal_strlit("mem_numa");
    reveal_strlit("address");
    reveal_strlit("vaddr");
    reveal_strlit("mean_latency");
    reveal_strlit("median_latency");
    reveal_strlit("min_latency");
    reveal_strlit("max_latency");
    reveal_strlit("cv_percent");
    reveal_strlit("mean_of_means");
    reveal_strlit("mean_of_medians");
    assert("ping_core"@[1] != "pong_core"@[1]);
    assert("ping_core"@[5] != "ping_numa"@[5]);
    assert("ping_core"@[1] != "pong_numa"@[1]);
    assert("ping_core"@.len() != "mem_numa"@.len());
    assert("ping_core"@.len() != "address"@.len());
    assert("ping_core"@.len() != "vaddr"@.len());
    assert("ping_core"@.len() != "mean_latency"@.len());
    assert("ping_core"@.len() != "median_latency"@.len());
    assert("ping_core"@.len() != "min_latency"@.len());
    assert("ping_core"@.len() != "max_latency"@.len());
    assert("ping_core"@.len() != "cv_percent"@.len());
    assert("pong_core"@[1] != "ping_numa"@[1]);
    assert("pong_core"@[5] != "pong_numa"@[5]);
    assert("pong_core"@.len() != "mem_numa"@.len());
    assert("pong_core"@.len() != "address"@.len());
    assert("pong_core"@.len() != "vaddr"@.len());
    assert("pong_core"@.len() != "mean_latency"@.len());
    assert("pong_core"@.len() != "median_latency"@.len());
    assert("pong_core"@.len() != "min_latency"@.len());
    assert("pong_core"@.len() != "max_latency"@.len());
    assert("pong_core"@.len() != "cv_percent"@.len());
    assert("ping_numa"@[1] != "pong_numa"@[1]);
    assert("ping_numa"@.len() != "mem_numa"@.len());
    assert("ping_numa"@.len() != "address"@.len());
    assert("ping_numa"@.len() != "vaddr"@.len());
    assert("ping_numa"@.len() != "mean_latency"@.len());
    assert("ping_numa"@.len() != "median_latency"@.len());
    assert("ping_numa"@.len() != "min_latency"@.len());
    assert("ping_numa"@.len() != "max_latency"@.len());
    assert("ping_numa"@.len() != "cv_percent"@.len());
    assert("pong_numa"@.len() != "mem_numa"@.len());
    assert("pong_numa"@.len() != "address"@.len());
    assert("pong_numa"@.len() != "vaddr"@.len());
    assert("pong_numa"@.len() != "mean_latency"@.len());
    assert("pong_numa"@.len() != "median_latency"@.len());
    assert("pong_numa"@.len() != "min_latency"@.len());
    assert("pong_numa"@.len() != "max_latency"@.len());
    assert("pong_numa"@.len() != "cv_percent"@.len());
    assert("mem_numa"@.len() != "address"@.len());
    assert("mem_numa"@.len() != "vaddr"@.len());
    assert("mem_numa"@.len() != "mean_latency"@.len());
    assert("mem_numa"@.len() != "median_latency"@.len());
    assert("mem_numa"@.len() != "min_latency"@.len());
    assert("mem_numa"@.len() != "max_latency"@.len());
    assert("mem_numa"@.len() != "cv_percent"@.len());
    assert("address"@.len() != "vaddr"@.len());
    assert("address"@.len() != "mean_latency"@.len());
    assert("address"@.len() != "median_latency"@.len());
    assert("address"@.len() != "min_latency"@.len());
    assert("address"@.len() != "max_latency"@.len());
    assert("address"@.len() != "cv_percent"@.len());
    assert("vaddr"@.len() != "mean_latency"@.len());
    assert("vaddr"@.len() != "median_latency"@.len());
    assert("vaddr"@.len() != "min_latency"@.len());
    assert("vaddr"@.len() != "max_latency"@.len());
    assert("vaddr"@.len() != "cv_percent"@.len());
    assert("mean_latency"@.len() != "median_latency"@.len());
    assert("mean_latency"@.len() != "min_latency"@.len());
    assert("mean_latency"@.len() != "max_latency"@.len());
    assert("mean_latency"@.len() != "cv_percent"@.len());
    assert("median_latency"@.len() != "min_latency"@.len());
    assert("median_latency"@.len() != "max_latency"@.len());
    assert("median_latency"@.len() != "cv_percent"@.len());
    assert("min_latency"@[1] != "max_latency"@[1]);
    assert("min_latency"@.len() != "cv_percent"@.len());
    assert("max_latency"@.len() != "cv_percent"@.len());
    assert("ping_core"@.len() != "mean_of_means"@.len());
    assert("ping_core"@.len() != "mean_of_medians"@.len());
    assert("pong_core"@.len() != "mean_of_means"@.len());
    assert("pong_core"@.len() != "mean_of_medians"@.len());
    assert("ping_numa"@.len() != "mean_of_means"@.len());
    assert("ping_numa"@.len() != "mean_of_medians"@.len());
    assert("pong_numa"@.len() != "mean_of_means"@.len());
    assert("pong_numa"@.len() != "mean_of_medians"@.len());
    assert("mem_numa"@.len() != "mean_of_means"@.len());
    assert("mem_numa"@.len() != "mean_of_medians"@.len());
    assert("mean_of_means"@.len() != "mean_of_medians"@.len());
    assert("mean_of_means"@.len() != "min_latency"@.len());
    assert("mean_of_means"@.len() != "max_latency"@.len());
    assert("mean_of_means"@.len() != "cv_percent"@.len());
    assert("mean_of_medians"@.len() != "min_latency"@.len());
    assert("mean_of_medians"@.len() != "max_latency"@.len());
    assert("mean_of_medians"@.len() != "cv_percent"@.len());
}

/// Whether `field` is what stands under the column `name` for the address of `row`.
pub open spec fn is_per_address_field<A: Arithmetic>(
    arith: &A,
    row: PerAddressRow,
    name: Seq<char>,
    field: Seq<char>,
) -> bool {
    &&& name == "ping_core"@ ==> field == decimal(row.ping_core as nat)
    &&& name == "pong_core"@ ==> field == decimal(row.pong_core as nat)
    &&& name == "ping_numa"@ ==> field == decimal(row.ping_numa as nat)
    &&& name == "pong_numa"@ ==> field == decimal(row.pong_numa as nat)
    &&& name == "mem_numa"@ ==> field == decimal(row.mem_numa as nat)
    &&& name == "address"@ ==> field == decimal(row.address as nat)
    &&& name == "vaddr"@ ==> field == "0x"@ + hexadecimal(row.vaddr as nat)
    &&& name == "mean_latency"@ ==> is_shown(arith, row.mean, 2, field)
    &&& name == "median_latency"@ ==> is_shown(arith, row.median, 2, field)
    &&& name == "min_latency"@ ==> is_shown(arith, row.min, 2, field)
    &&& name == "max_latency"@ ==> is_shown(arith, row.max, 2, field)
    &&& name == "cv_percent"@ ==> is_shown(arith, row.cv_percent, 2, field)
}

/// The fields of a row stand under the columns of the same names.
proof fn lemma_per_address_fields<A: Arithmetic>(arith: &A, row: PerAddressRow, fields: Seq<Seq<char>>)
    requires
        are_per_address_fields(arith, row, fields),
    ensures
        fields.len() == per_address_columns().len(),
        forall|c: int|
            0 <= c < fields.len() ==> is_per_address_field(
                arith,
                row,
                per_address_columns()[c],
                #[trigger] fields[c],
            ),
{
    lemma_names_differ();
    let names = per_address_columns();
    assert forall|c: int| 0 <= c < fields.len() implies is_per_address_field(
        arith,
        row,
        names[c],
        #[trigger] fields[c],
    ) by {
        if c == 0 {
            assert(names[c] == "ping_core"@);
        } else if c == 1 {
            assert(names[c] == "pong_core"@);
        } else if c == 2 {
            assert(names[c] == "ping_numa"@);
        } else if c == 3 {
            assert(names[c] == "pong_numa"@);
        } else if c == 4 {
            assert(names[c] == "mem_numa"@);
        } else if c == 5 {
            assert(names[c] == "address"@);
        } else if c == 6 {
            assert(names[c] == "vaddr"@);
        } else if c == 7 {
            assert(names[c] == "mean_latency"@);
        } else if c == 8 {
            assert(names[c] == "median_latency"@);
        } else if c == 9 {
            assert(names[c] == "min_latency"@);
        } else if c == 10 {
            assert(names[c] == "max_latency"@);
        } else if c == 11 {
            assert(names[c] == "cv_percent"@);
        }
    }
}

/// The table of addresses has a line of column names and a line for each row, in order; in
/// each line there stands under each name what the row has by that name. Returns the
/// names and the fields of the lines.
pub proof fn lemma_per_address_table<A: Arithmetic>(
    rows: &Vec<PerAddressRow>,
    arith: &A,
    r: String,
) -> (t: (Seq<Seq<char>>, Seq<Seq<Seq<char>>>))
    requires
        call_ensures(per_address_table::<A>, (rows, arith), r),
    ensures
        r@ == line_of(t.0) + t.1.map_values(|fields: Seq<Seq<char>>| line_of(fields)).flatten(),
        forall|h: String| #[trigger] call_ensures(per_address_header, (), h) ==> h@ == line_of(t.0),
        t.0.no_duplicates(),
        t.0.contains("ping_core"@),
        t.0.contains("pong_core"@),
        t.0.contains("ping_numa"@),
        t.0.contains("pong_numa"@),
        t.0.contains("mem_numa"@),
        t.0.contains("address"@),
        t.0.contains("vaddr"@),
        t.0.contains("mean_latency"@),
        t.0.contains("median_latency"@),
        t.0.contains("min_latency"@),
        t.0.contains("max_latency"@),
        t.0.contains("cv_percent"@),
        t.1.len() == rows@.len(),
        forall|k: int| 0 <= k < rows@.len() ==> (#[trigger] t.1[k]).len() == t.0.len(),
        forall|k: int, c: int|
            0 <= k < rows@.len() && 0 <= c < t.0.len() ==> is_per_address_field(
                arith,
                rows@[k],
                t.0[c],
                #[trigger] t.1[k][c],
            ),
{
    let names = per_address_columns();
    lemma_csv_line(names);
    lemma_names_differ();
    assert(names[0] == "ping_core"@);
    assert(names[1] == "pong_core"@);
    assert(names[2] == "ping_numa"@);
    assert(names[3] == "pong_numa"@);
    assert(names[4] == "mem_numa"@);
    assert(names[5] == "address"@);
    assert(names[6] == "vaddr"@);
    assert(names[7] == "mean_latency"@);
    assert(names[8] == "median_latency"@);
    assert(names[9] == "min_latency"@);
    assert(names[10] == "max_latency"@);
    assert(names[11] == "cv_percent"@);
    let lines = choose|lines: Seq<Seq<char>>| #[trigger]
        are_per_address_lines(arith, rows@, lines) && r@ == csv_line(names) + joined(lines);
    lemma_joined_flat(lines);
    let fields = Seq::new(
        rows@.len(),
        |k: int|
            choose|fields: Seq<Seq<char>>| #[trigger]
                are_per_address_fields(arith, rows@[k], fields) && lines[k] == csv_line(fields),
    );
    assert forall|k: int| 0 <= k < rows@.len() implies are_per_address_fields(
        arith,
        rows@[k],
        #[trigger] fields[k],
    ) && lines[k] == line_of(fields[k]) by {
        assert(is_per_address_line(arith, rows@[k], lines[k]));
        lemma_csv_line(fields[k]);
    }
    assert forall|k: int, c: int| 0 <= k < rows@.len() && 0 <= c < names.len() implies is_per_address_field(
        arith,
        rows@[k],
        names[c],
        #[trigger] fields[k][c],
    ) by {
        lemma_per_address_fields(arith, rows@[k], fields[k]);
    }
    assert forall|k: int| 0 <= k < rows@.len() implies (#[trigger] fields[k]).len()
        == names.len() by {
        lemma_per_address_fields(arith, rows@[k], fields[k]);
    }
    assert(lines =~= fields.map_values(|fields: Seq<Seq<char>>| line_of(fields)));
    (names, fields)
}

/// In a line of the table of addresses there stands under each column name what the row has by
/// that name. Returns the names and the fields of the line.
pub proof fn lemma_per_address_line<A: Arithmetic>(
    row: &PerAddressRow,
    arith: &A,
    r: String,
) -> (t: (Seq<Seq<char>>, Seq<Seq<char>>))
    requires
        call_ensures(per_address_line::<A>, (row, arith), r),
    ensures
        r@ == line_of(t.1),
        forall|h: String| #[trigger] call_ensures(per_address_header, (), h) ==> h@ == line_of(t.0),
        t.1.len() == t.0.len(),
        forall|c: int|
            0 <= c < t.0.len() ==> is_per_address_field(arith, *row, t.0[c], #[trigger] t.1[c]),
        t.0.contains("ping_core"@),
        t.0.contains("pong_core"@),
        t.0.contains("ping_numa"@),
        t.0.contains("pong_numa"@),
        t.0.contains("mem_numa"@),
        t.0.contains("address"@),
        t.0.contains("vaddr"@),
        t.0.contains("mean_latency"@),
        t.0.contains("median_latency"@),
        t.0.contains("min_latency"@),
        t.0.contains("max_latency"@),
        t.0.contains("cv_percent"@),
{
    let names = per_address_columns();
    assert(names[0] == "ping_core"@);
    assert(names[1] == "pong_core"@);
    assert(names[2] == "ping_numa"@);
    assert(names[3] == "pong_numa"@);
    assert(names[4] == "mem_numa"@);
    assert(names[5] == "address"@);
    assert(names[6] == "vaddr"@);
    assert(names[7] == "mean_latency"@);
    assert(names[8] == "median_latency"@);
    assert(names[9] == "min_latency"@);
    assert(names[10] == "max_latency"@);
    assert(names[11] == "cv_percent"@);
    lemma_csv_line(names);
    let fields = choose|fields: Seq<Seq<char>>| #[trigger]
        are_per_address_fields(arith, *row, fields) && r@ == csv_line(fields);
    lemma_csv_line(fields);
    lemma_per_address_fields(arith, *row, fields);
    (names, fields)
}

/// Whether `field` is what stands under the column `name` for the pair of `row`.
pub open spec fn is_per_pair_field<A: Arithmetic>(
    arith: &A,
    row: PerPairSummary,
    name: Seq<char>,
    field: Seq<char>,
) -> bool {
    &&& name == "ping_core"@ ==> field == decimal(row.ping_core as nat)
    &&& name == "pong_core"@ ==> field == decimal(row.pong_core as nat)
    &&& name == "ping_numa"@ ==> field == decimal(row.ping_numa as nat)
    &&& name == "pong_numa"@ ==> field == decimal(row.pong_numa as nat)
    &&& name == "mem_numa"@ ==> field == decimal(row.mem_numa as nat)
    &&& name == "mean_of_means"@ ==> is_shown(arith, row.mean_of_means, 2, field)
    &&& name == "mean_of_medians"@ ==> is_shown(arith, row.mean_of_medians, 2, field)
    &&& name == "min_latency"@ ==> is_shown(arith, row.min, 2, field)
    &&& name == "max_latency"@ ==> is_shown(arith, row.max, 2, field)
    &&& name == "cv_percent"@ ==> is_shown(arith, row.cv_percent, 2, field)
}

/// The fields of a row stand under the columns of the same names.
proof fn lemma_per_pair_fields<A: Arithmetic>(arith: &A, row: PerPairSummary, fields: Seq<Seq<char>>)
    requires
        are_per_pair_fields(arith, row, fields),
    ensures
        fields.len() == per_pair_columns().len(),
        forall|c: int|
            0 <= c < fields.len() ==> is_per_pair_field(
                arith,
                row,
                per_pair_columns()[c],
                #[trigger] fields[c],
            ),
{
    lemma_names_differ();
    let names = per_pair_columns();
    assert forall|c: int| 0 <= c < fields.len() implies is_per_pair_field(
        arith,
        row,
        names[c],
        #[trigger] fields[c],
    ) by {
        if c == 0 {
            assert(names[c] == "ping_core"@);
        } else if c == 1 {
            assert(names[c] == "pong_core"@);
        } else if c == 2 {
            assert(names[c] == "ping_numa"@);
        } else if c == 3 {
            assert(names[c] == "pong_numa"@);
        } else if c == 4 {
            assert(names[c] == "mem_numa"@);
        } else if c == 5 {
            assert(names[c] == "mean_of_means"@);
        } else if c == 6 {
            assert(names[c] == "mean_of_medians"@);
        } else if c == 7 {
            assert(names[c] == "min_latency"@);
        } else if c == 8 {
            assert(names[c] == "max_latency"@);
        } else if c == 9 {
            assert(names[c] == "cv_percent"@);
        }
    }
}

/// The table of pairs has a line of column names and a line for each row, in order; in
/// each line there stands under each name what the row has by that name. Returns the
/// names and the fields of the lines.
pub proof fn lemma_per_pair_table<A: Arithmetic>(
    rows: &Vec<PerPairSummary>,
    arith: &A,
    r: String,
) -> (t: (Seq<Seq<char>>, Seq<Seq<Seq<char>>>))
    requires
        call_ensures(per_pair_table::<A>, (rows, arith), r),
    ensures
        r@ == line_of(t.0) + t.1.map_values(|fields: Seq<Seq<char>>| line_of(fields)).flatten(),
        forall|h: String| #[trigger] call_ensures(per_pair_header, (), h) ==> h@ == line_of(t.0),
        t.0.no_duplicates(),
        t.0.contains("ping_core"@),
        t.0.contains("pong_core"@),
        t.0.contains("ping_numa"@),
        t.0.contains("pong_numa"@),
        t.0.contains("mem_numa"@),
        t.0.contains("mean_of_means"@),
        t.0.contains("mean_of_medians"@),
        t.0.contains("min_latency"@),
        t.0.contains("max_latency"@),
        t.0.contains("cv_percent"@),
        t.1.len() == rows@.len(),
        forall|k: int| 0 <= k < rows@.len() ==> (#[trigger] t.1[k]).len() == t.0.len(),
        forall|k: int, c: int|
            0 <= k < rows@.len() && 0 <= c < t.0.len() ==> is_per_pair_field(
                arith,
                rows@[k],
                t.0[c],
                #[trigger] t.1[k][c],
            ),
{
    let names = per_pair_columns();
    lemma_csv_line(names);
    lemma_names_differ();
    assert(names[0] == "ping_core"@);
    assert(names[1] == "pong_core"@);
    assert(names[2] == "ping_numa"@);
    assert(names[3] == "pong_numa"@);
    assert(names[4] == "mem_numa"@);
    assert(names[5] == "mean_of_means"@);
    assert(names[6] == "mean_of_medians"@);
    assert(names[7] == "min_latency"@);
    assert(names[8] == "max_latency"@);
    assert(names[9] == "cv_percent"@);
    let lines = choose|lines: Seq<Seq<char>>| #[trigger]
        are_per_pair_lines(arith, rows@, lines) && r@ == csv_line(names) + joined(lines);
    lemma_joined_flat(lines);
    let fields = Seq::new(
        rows@.len(),
        |k: int|
            choose|fields: Seq<Seq<char>>| #[trigger]
                are_per_pair_fields(arith, rows@[k], fields) && lines[k] == csv_line(fields),
    );
    assert forall|k: int| 0 <= k < rows@.len() implies are_per_pair_fields(
        arith,
        rows@[k],
        #[trigger] fields[k],
    ) && lines[k] == line_of(fields[k]) by {
        assert(is_per_pair_line(arith, rows@[k], lines[k]));
        lemma_csv_line(fields[k]);
    }
    assert forall|k: int, c: int| 0 <= k < rows@.len() && 0 <= c < names.len() implies is_per_pair_field(
        arith,
        rows@[k],
        names[c],
        #[trigger] fields[k][c],
    ) by {
        lemma_per_pair_fields(arith, rows@[k], fields[k]);
    }
    assert forall|k: int| 0 <= k < rows@.len() implies (#[trigger] fields[k]).len()
        == names.len() by {
        lemma_per_pair_fields(arith, rows@[k], fields[k]);
    }
    assert(lines =~= fields.map_values(|fields: Seq<Seq<char>>| line_of(fields)));
    (names, fields)
}

/// In a line of the table of pairs there stands under each column name what the row has by
/// that name. Returns the names and the fields of the line.
pub proof fn lemma_per_pair_line<A: Arithmetic>(
    row: &PerPairSummary,
    arith: &A,
    r: String,
) -> (t: (Seq<Seq<char>>, Seq<Seq<char>>))
    requires
        call_ensures(per_pair_line::<A>, (row, arith), r),
    ensures
        r@ == line_of(t.1),
        forall|h: String| #[trigger] call_ensures(per_pair_header, (), h) ==> h@ == line_of(t.0),
        t.1.len() == t.0.len(),
        forall|c: int|
            0 <= c < t.0.len() ==> is_per_pair_field(arith, *row, t.0[c], #[trigger] t.1[c]),
        t.0.contains("ping_core"@),
        t.0.contains("pong_core"@),
        t.0.contains("ping_numa"@),
        t.0.contains("pong_numa"@),
        t.0.contains("mem_numa"@),
        t.0.contains("mean_of_means"@),
        t.0.contains("mean_of_medians"@),
        t.0.contains("min_latency"@),
        t.0.contains("max_latency"@),
        t.0.contains("cv_percent"@),
{
    let names = per_pair_columns();
    assert(names[0] == "ping_core"@);
    assert(names[1] == "pong_core"@);
    assert(names[2] == "ping_numa"@);
    assert(names[3] == "pong_numa"@);
    assert(names[4] == "mem_numa"@);
    assert(names[5] == "mean_of_means"@);
    assert(names[6] == "mean_of_medians"@);
    assert(names[7] == "min_latency"@);
    assert(names[8] == "max_latency"@);
    assert(names[9] == "cv_percent"@);
    lemma_csv_line(names);
    let fields = choose|fields: Seq<Seq<char>>| #[trigger]
        are_per_pair_fields(arith, *row, fields) && r@ == csv_line(fields);
    lemma_csv_line(fields);
    lemma_per_pair_fields(arith, *row, fields);
    (names, fields)
}

/// The matrix as lines of fields: first an empty field and the numbers of the cores; then
/// for each core its number and, in the order of the cores, its latencies with one
/// decimal, with an empty field where there is none. Returns the fields of the lines
/// behind the first.
pub proof fn lemma_matrix_table<A: Arithmetic>(
    cores: &Vec<CoreId>,
    matrix: &Vec<Vec<Double>>,
    arith: &A,
    r: String,
) -> (lines: Seq<Seq<Seq<char>>>)
    requires
        call_ensures(matrix_table::<A>, (cores, matrix, arith), r),
        cores@.len() > 0,
        matrix@.len() == cores@.len(),
    ensures
        r@ == line_of(
            seq![Seq::<char>::empty()] + cores@.map_values(|c: CoreId| decimal(c.id as nat)),
        ) + lines.map_values(|fields: Seq<Seq<char>>| line_of(fields)).flatten(),
        lines.len() == cores@.len(),
        forall|i: int|
            0 <= i < lines.len() ==> {
                &&& (#[trigger] lines[i]).len() == matrix@[i]@.len() + 1
                &&& lines[i][0] == decimal(cores@[i].id as nat)
            },
        forall|i: int, j: int|
            0 <= i < lines.len() && 0 <= j < matrix@[i]@.len() ==> {
                let field = #[trigger] lines[i].skip(1)[j];
                &&& matrix@[i]@[j].nan() ==> field == Seq::<char>::empty()
                &&& !matrix@[i]@[j].nan() ==> is_shown(arith, matrix@[i]@[j], 1, field)
            },
{
    let ids = ids_of(cores@);
    let rows = rows_of(matrix@);
    let head = seq![Seq::<char>::empty()] + ids.map_values(|id: usize| decimal(id as nat));
    lemma_matrix_header_fields(ids);
    lemma_csv_line(head);
    assert(head =~= seq![Seq::<char>::empty()] + cores@.map_values(
        |c: CoreId| decimal(c.id as nat),
    ));
    let texts = choose|texts: Seq<Seq<char>>| #[trigger]
        are_matrix_lines(arith, ids, rows, texts) && r@ == matrix_header(ids) + joined(texts);
    lemma_joined_flat(texts);
    let lines = Seq::new(
        cores@.len(),
        |i: int|
            choose|fields: Seq<Seq<char>>| #[trigger]
                are_matrix_fields(arith, ids[i], rows[i], fields) && texts[i] == line_of(fields),
    );
    assert forall|i: int| 0 <= i < lines.len() implies are_matrix_fields(
        arith,
        ids[i],
        rows[i],
        #[trigger] lines[i],
    ) && texts[i] == line_of(lines[i]) by {
        assert(is_matrix_line(arith, ids[i], rows[i], texts[i]));
        let fields = lemma_matrix_line_fields(arith, ids[i], rows[i], texts[i]);
        lemma_csv_line(fields);
        assert forall|j: int| 0 <= j < rows[i].len() implies is_matrix_field(
            arith,
            rows[i][j],
            #[trigger] fields.skip(1)[j],
        ) by {
            assert(is_latency_field(arith, rows[i][j], fields[j + 1]));
        }
        assert(are_matrix_fields(arith, ids[i], rows[i], fields));
    }
    assert forall|i: int| 0 <= i < lines.len() implies ({
        &&& (#[trigger] lines[i]).len() == matrix@[i]@.len() + 1
        &&& lines[i][0] == decimal(cores@[i].id as nat)
    }) by {
        assert(are_matrix_fields(arith, ids[i], rows[i], lines[i]));
    }
    assert forall|i: int, j: int| 0 <= i < lines.len() && 0 <= j < matrix@[i]@.len() implies ({
        let field = #[trigger] lines[i].skip(1)[j];
        &&& matrix@[i]@[j].nan() ==> field == Seq::<char>::empty()
        &&& !matrix@[i]@[j].nan() ==> is_shown(arith, matrix@[i]@[j], 1, field)
    }) by {
        assert(are_matrix_fields(arith, ids[i], rows[i], lines[i]));
        assert(is_matrix_field(arith, rows[i][j], lines[i].skip(1)[j]));
    }
    assert(texts =~= lines.map_values(|fields: Seq<Seq<char>>| line_of(fields)));
    lines
}

/// Whether `field` is how a latency of the matrix is shown.
spec fn is_matrix_field<A: Arithmetic>(arith: &A, v: Double, field: Seq<char>) -> bool {
    &&& v.nan() ==> field == Seq::<char>::empty()
    &&& !v.nan() ==> is_shown(arith, v, 1, field)
}

/// Whether `fields` are those of a line of the matrix.
spec fn are_matrix_fields<A: Arithmetic>(
    arith: &A,
    id: usize,
    row: Seq<Double>,
    fields: Seq<Seq<char>>,
) -> bool {
    &&& fields.len() == row.len() + 1
    &&& fields[0] == decimal(id as nat)
    &&& forall|j: int|
        0 <= j < row.len() ==> is_matrix_field(arith, row[j], #[trigger] fields.skip(1)[j])
}

/// The files of a run: their names are the prefix, the benchmark and what they hold,
/// joined by dots, and they hold the tables of the addresses and of the pairs.
pub proof fn lemma_csv_files<A: Arithmetic>(
    prefix: &str,
    bench_name: &str,
    rows: &Vec<PerAddressRow>,
    summaries: &Vec<PerPairSummary>,
    arith: &A,
    r: (CsvFile, CsvFile),
)
    requires
        call_ensures(csv_files::<A>, (prefix, bench_name, rows, summaries, arith), r),
    ensures
        r.0.path@ == seq![prefix@, "."@, bench_name@, "."@, "per_address"@, ".csv"@].flatten(),
        r.1.path@ == seq![prefix@, "."@, bench_name@, "."@, "summary"@, ".csv"@].flatten(),
        call_ensures(per_address_table::<A>, (rows, arith), r.0.text),
        call_ensures(per_pair_table::<A>, (summaries, arith), r.1.text),
{
    lemma_path_parts(prefix@, bench_name@, "per_address"@);
    lemma_path_parts(prefix@, bench_name@, "summary"@);
}

/// The parts of the name of a table file.
proof fn lemma_path_parts(prefix: Seq<char>, bench_name: Seq<char>, suffix: Seq<char>)
    ensures
        path(prefix, bench_name, suffix) == seq![
            prefix,
            "."@,
            bench_name,
            "."@,
            suffix,
            ".csv"@,
        ].flatten(),
{
    let parts = seq![prefix, "."@, bench_name, "."@, suffix, ".csv"@];
    lemma_joined_flat(parts);
    reveal_with_fuel(joined, 7);
    assert(parts.drop_last() =~= seq![prefix, "."@, bench_name, "."@, suffix]);
    assert(parts.drop_last().drop_last() =~= seq![prefix, "."@, bench_name, "."@]);
    assert(parts.drop_last().drop_last().drop_last() =~= seq![prefix, "."@, bench_name]);
    assert(seq![prefix, "."@, bench_name].drop_last() =~= seq![prefix, "."@]);
    assert(seq![prefix, "."@].drop_last() =~= seq![prefix]);
    assert(seq![prefix].drop_last() =~= Seq::empty());
    assert(joined(parts) =~= path(prefix, bench_name, suffix));
}

/// What is printed of a table file names it, in a line of its own; where it cannot be made,
/// with what went wrong.
pub proof fn lemma_file_messages(path: &str, error: &str, created: String, failed: String)
    requires
        call_ensures(created_message, (path,), created),
        call_ensures(failed_message, (path, error), failed),
    ensures
        created@ == "    Writing CSV: "@ + path@ + "\n"@,
        failed@ == "    ERROR: Failed to create "@ + path@ + ": "@ + error@ + "\n"@,
{
}

} // verus!

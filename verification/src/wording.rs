//! What refusals and faults say.
use vstd::prelude::*;
use crate::text::{decimal, decimal_text, push_decimal};

verus! {

pub open spec fn ragged_msg(row: u64, cells: u64, first: u64) -> Seq<char> {
    "the edit block is ragged: row "@
        + decimal(row as nat)
        + " carries "@
        + decimal(cells as nat)
        + " cells, row 1 carries "@
        + decimal(first as nat)
}

pub fn ragged(row: u64, cells: u64, first: u64) -> (m: String)
    ensures
        m@ == ragged_msg(row, cells, first),
{
    let mut m = "the edit block is ragged: row ".to_string();
    push_decimal(&mut m, row);
    m.append(" carries ");
    push_decimal(&mut m, cells);
    m.append(" cells, row 1 carries ");
    push_decimal(&mut m, first);
    m
}

pub open spec fn cache_ended_msg(row: u64, rows: u64) -> Seq<char> {
    "the pre-edit cache ended before old row "@
        + decimal(row as nat)
        + " (its footer promised "@
        + decimal(rows as nat)
        + ")"@
}

pub fn cache_ended(row: u64, rows: u64) -> (m: String)
    ensures
        m@ == cache_ended_msg(row, rows),
{
    let mut m = "the pre-edit cache ended before old row ".to_string();
    push_decimal(&mut m, row);
    m.append(" (its footer promised ");
    push_decimal(&mut m, rows);
    m.append(")");
    m
}

pub open spec fn plan_covered_msg(emitted: u64, total: u64) -> Seq<char> {
    "the rewrite plan covered "@
        + decimal(emitted as nat)
        + " of "@
        + decimal(total as nat)
        + " output rows — a segment-table bug"@
}

pub fn plan_covered(emitted: u64, total: u64) -> (m: String)
    ensures
        m@ == plan_covered_msg(emitted, total),
{
    let mut m = "the rewrite plan covered ".to_string();
    push_decimal(&mut m, emitted);
    m.append(" of ");
    push_decimal(&mut m, total);
    m.append(" output rows — a segment-table bug");
    m
}

pub open spec fn insert_rows_range_msg(at: u64, count: u64, rows: u64) -> Seq<char> {
    "insert_rows at "@
        + decimal(at as nat)
        + " count "@
        + decimal(count as nat)
        + ": 'at' must name a row inside the "@
        + decimal(rows as nat)
        + "-row extent and 'count' be positive"@
}

pub fn insert_rows_range(at: u64, count: u64, rows: u64) -> (m: String)
    ensures
        m@ == insert_rows_range_msg(at, count, rows),
{
    let mut m = "insert_rows at ".to_string();
    push_decimal(&mut m, at);
    m.append(" count ");
    push_decimal(&mut m, count);
    m.append(": 'at' must name a row inside the ");
    push_decimal(&mut m, rows);
    m.append("-row extent and 'count' be positive");
    m
}

pub open spec fn insert_rows_overflow_msg(at: u64, count: u64) -> Seq<char> {
    "insert_rows at "@
        + decimal(at as nat)
        + " count "@
        + decimal(count as nat)
        + " overflows the extent"@
}

pub fn insert_rows_overflow(at: u64, count: u64) -> (m: String)
    ensures
        m@ == insert_rows_overflow_msg(at, count),
{
    let mut m = "insert_rows at ".to_string();
    push_decimal(&mut m, at);
    m.append(" count ");
    push_decimal(&mut m, count);
    m.append(" overflows the extent");
    m
}

pub open spec fn delete_rows_range_msg(at: u64, count: u64, rows: u64) -> Seq<char> {
    "delete_rows at "@
        + decimal(at as nat)
        + " count "@
        + decimal(count as nat)
        + ": the window exceeds the "@
        + decimal(rows as nat)
        + "-row extent"@
}

pub fn delete_rows_range(at: u64, count: u64, rows: u64) -> (m: String)
    ensures
        m@ == delete_rows_range_msg(at, count, rows),
{
    let mut m = "delete_rows at ".to_string();
    push_decimal(&mut m, at);
    m.append(" count ");
    push_decimal(&mut m, count);
    m.append(": the window exceeds the ");
    push_decimal(&mut m, rows);
    m.append("-row extent");
    m
}

pub open spec fn delete_rows_none_msg(at: u64) -> Seq<char> {
    "delete_rows at "@
        + decimal(at as nat)
        + " count 0: nothing to delete"@
}

pub fn delete_rows_none(at: u64) -> (m: String)
    ensures
        m@ == delete_rows_none_msg(at),
{
    let mut m = "delete_rows at ".to_string();
    push_decimal(&mut m, at);
    m.append(" count 0: nothing to delete");
    m
}

pub open spec fn insert_cols_range_msg(at: u64, specs: u64, cols: u64) -> Seq<char> {
    "insert_cols at "@
        + decimal(at as nat)
        + " with "@
        + decimal(specs as nat)
        + " columns: 'at' must name a position inside the "@
        + decimal(cols as nat)
        + "-column extent and the spec list be non-empty"@
}

pub fn insert_cols_range(at: u64, specs: u64, cols: u64) -> (m: String)
    ensures
        m@ == insert_cols_range_msg(at, specs, cols),
{
    let mut m = "insert_cols at ".to_string();
    push_decimal(&mut m, at);
    m.append(" with ");
    push_decimal(&mut m, specs);
    m.append(" columns: 'at' must name a position inside the ");
    push_decimal(&mut m, cols);
    m.append("-column extent and the spec list be non-empty");
    m
}

pub open spec fn insert_cols_overflow_msg(at: u64, cols: u64) -> Seq<char> {
    "insert_cols at "@
        + decimal(at as nat)
        + " would overflow the "@
        + decimal(cols as nat)
        + "-column extent"@
}

pub fn insert_cols_overflow(at: u64, cols: u64) -> (m: String)
    ensures
        m@ == insert_cols_overflow_msg(at, cols),
{
    let mut m = "insert_cols at ".to_string();
    push_decimal(&mut m, at);
    m.append(" would overflow the ");
    push_decimal(&mut m, cols);
    m.append("-column extent");
    m
}

pub open spec fn unknown_column_type_msg(ty: Seq<char>) -> Seq<char> {
    "unknown column type '"@
        + ty
        + "' (scale | ordinal | nominal)"@
}

pub fn unknown_column_type(ty: &str) -> (m: String)
    ensures
        m@ == unknown_column_type_msg(ty@),
{
    let mut m = "unknown column type '".to_string();
    m.append(ty);
    m.append("' (scale | ordinal | nominal)");
    m
}

pub open spec fn duplicate_level_msg(level: Seq<char>) -> Seq<char> {
    "duplicate level '"@
        + level
        + "' in the declared list"@
}

pub fn duplicate_level(level: &str) -> (m: String)
    ensures
        m@ == duplicate_level_msg(level@),
{
    let mut m = "duplicate level '".to_string();
    m.append(level);
    m.append("' in the declared list");
    m
}

pub open spec fn delete_cols_range_msg(at: u64, count: u64, cols: u64) -> Seq<char> {
    "delete_cols at "@
        + decimal(at as nat)
        + " count "@
        + decimal(count as nat)
        + ": the window exceeds the "@
        + decimal(cols as nat)
        + "-column extent"@
}

pub fn delete_cols_range(at: u64, count: u64, cols: u64) -> (m: String)
    ensures
        m@ == delete_cols_range_msg(at, count, cols),
{
    let mut m = "delete_cols at ".to_string();
    push_decimal(&mut m, at);
    m.append(" count ");
    push_decimal(&mut m, count);
    m.append(": the window exceeds the ");
    push_decimal(&mut m, cols);
    m.append("-column extent");
    m
}

pub open spec fn delete_cols_none_msg(at: u64) -> Seq<char> {
    "delete_cols at "@
        + decimal(at as nat)
        + " count 0: nothing to delete"@
}

pub fn delete_cols_none(at: u64) -> (m: String)
    ensures
        m@ == delete_cols_none_msg(at),
{
    let mut m = "delete_cols at ".to_string();
    push_decimal(&mut m, at);
    m.append(" count 0: nothing to delete");
    m
}

pub open spec fn delete_cols_last_msg(at: u64, count: u64) -> Seq<char> {
    "delete_cols at "@
        + decimal(at as nat)
        + " count "@
        + decimal(count as nat)
        + ": a dataset must keep at least one column"@
}

pub fn delete_cols_last(at: u64, count: u64) -> (m: String)
    ensures
        m@ == delete_cols_last_msg(at, count),
{
    let mut m = "delete_cols at ".to_string();
    push_decimal(&mut m, at);
    m.append(" count ");
    push_decimal(&mut m, count);
    m.append(": a dataset must keep at least one column");
    m
}

pub open spec fn inverse_too_large_msg(len: u64, ceiling: u64) -> Seq<char> {
    "the inverse is "@
        + decimal(len as nat)
        + " bytes — too large to transport (ceiling "@
        + decimal(ceiling as nat)
        + "); the change itself is too large to undo over the wire"@
}

pub fn inverse_too_large(len: u64, ceiling: u64) -> (m: String)
    ensures
        m@ == inverse_too_large_msg(len, ceiling),
{
    let mut m = "the inverse is ".to_string();
    push_decimal(&mut m, len);
    m.append(" bytes — too large to transport (ceiling ");
    push_decimal(&mut m, ceiling);
    m.append("); the change itself is too large to undo over the wire");
    m
}

pub open spec fn inverse_write_failed_msg(e: Seq<char>) -> Seq<char> {
    "inverse IPC write failed: "@
        + e
}

pub fn inverse_write_failed(e: &str) -> (m: String)
    ensures
        m@ == inverse_write_failed_msg(e@),
{
    let mut m = "inverse IPC write failed: ".to_string();
    m.append(e);
    m
}

pub open spec fn redo_write_failed_msg(e: Seq<char>) -> Seq<char> {
    "redo IPC write failed: "@
        + e
}

pub fn redo_write_failed(e: &str) -> (m: String)
    ensures
        m@ == redo_write_failed_msg(e@),
{
    let mut m = "redo IPC write failed: ".to_string();
    m.append(e);
    m
}

pub open spec fn anchor_row_msg(row: u64, rows: u64) -> Seq<char> {
    "anchor row "@
        + decimal(row as nat)
        + " + "@
        + decimal(rows as nat)
        + " rows overflows the extent"@
}

pub fn anchor_row(row: u64, rows: u64) -> (m: String)
    ensures
        m@ == anchor_row_msg(row, rows),
{
    let mut m = "anchor row ".to_string();
    push_decimal(&mut m, row);
    m.append(" + ");
    push_decimal(&mut m, rows);
    m.append(" rows overflows the extent");
    m
}

pub open spec fn anchor_col_msg(col: u64, cols: u64) -> Seq<char> {
    "anchor col "@
        + decimal(col as nat)
        + " + "@
        + decimal(cols as nat)
        + " cols overflows the extent"@
}

pub fn anchor_col(col: u64, cols: u64) -> (m: String)
    ensures
        m@ == anchor_col_msg(col, cols),
{
    let mut m = "anchor col ".to_string();
    push_decimal(&mut m, col);
    m.append(" + ");
    push_decimal(&mut m, cols);
    m.append(" cols overflows the extent");
    m
}

pub open spec fn declared_scale_cell_msg(name: Seq<char>, cell: Seq<char>) -> Seq<char> {
    "declared scale column '"@
        + name
        + "' cannot take the cell '"@
        + cell
        + "' (omit the declaration to promote it)"@
}

pub fn declared_scale_cell(name: &str, cell: &str) -> (m: String)
    ensures
        m@ == declared_scale_cell_msg(name@, cell@),
{
    let mut m = "declared scale column '".to_string();
    m.append(name);
    m.append("' cannot take the cell '");
    m.append(cell);
    m.append("' (omit the declaration to promote it)");
    m
}

pub open spec fn declared_scale_new_msg(name: Seq<char>, cell: Seq<char>) -> Seq<char> {
    "declared scale column '"@
        + name
        + "' cannot take the cell '"@
        + cell
        + "' — omit the type to let the lane infer"@
}

pub fn declared_scale_new(name: &str, cell: &str) -> (m: String)
    ensures
        m@ == declared_scale_new_msg(name@, cell@),
{
    let mut m = "declared scale column '".to_string();
    m.append(name);
    m.append("' cannot take the cell '");
    m.append(cell);
    m.append("' — omit the type to let the lane infer");
    m
}

pub open spec fn cap_block_msg(distinct: u64, cap: u64, name: Seq<char>) -> Seq<char> {
    "distinct_count "@
        + decimal(distinct as nat)
        + " exceeds the wire cap "@
        + decimal(cap as nat)
        + " — the full label list of column '"@
        + name
        + "' cannot be rewritten"@
}

pub fn cap_block(distinct: u64, cap: u64, name: &str) -> (m: String)
    ensures
        m@ == cap_block_msg(distinct, cap, name@),
{
    let mut m = "distinct_count ".to_string();
    push_decimal(&mut m, distinct);
    m.append(" exceeds the wire cap ");
    push_decimal(&mut m, cap);
    m.append(" — the full label list of column '");
    m.append(name);
    m.append("' cannot be rewritten");
    m
}

pub open spec fn in_use_block_msg(name: Seq<char>, levels: Seq<char>) -> Seq<char> {
    "level(s) in use cannot be deleted from '"@
        + name
        + "': "@
        + levels
}

pub fn in_use_block(name: &str, levels: &str) -> (m: String)
    ensures
        m@ == in_use_block_msg(name@, levels@),
{
    let mut m = "level(s) in use cannot be deleted from '".to_string();
    m.append(name);
    m.append("': ");
    m.append(levels);
    m
}

pub open spec fn not_declared_msg(cell: Seq<char>) -> Seq<char> {
    "the pasted cell '"@
        + cell
        + "' is not in the declared levels — a declared list is the post-edit dictionary (adhere-or-error)"@
}

pub fn not_declared(cell: &str) -> (m: String)
    ensures
        m@ == not_declared_msg(cell@),
{
    let mut m = "the pasted cell '".to_string();
    m.append(cell);
    m.append("' is not in the declared levels — a declared list is the post-edit dictionary (adhere-or-error)");
    m
}

pub open spec fn name_taken_msg(name: Seq<char>) -> Seq<char> {
    "target_schema names a new column '"@
        + name
        + "' but the name is already taken — declared names must be free"@
}

pub fn name_taken(name: &str) -> (m: String)
    ensures
        m@ == name_taken_msg(name@),
{
    let mut m = "target_schema names a new column '".to_string();
    m.append(name);
    m.append("' but the name is already taken — declared names must be free");
    m
}

pub open spec fn window_width_msg(entries: u64, cols: u64) -> Seq<char> {
    "target_schema declares "@
        + decimal(entries as nat)
        + " entries for a paste "@
        + decimal(cols as nat)
        + " columns wide — the array is positional over the paste's columns"@
}

pub fn window_width(entries: u64, cols: u64) -> (m: String)
    ensures
        m@ == window_width_msg(entries, cols),
{
    let mut m = "target_schema declares ".to_string();
    push_decimal(&mut m, entries);
    m.append(" entries for a paste ");
    push_decimal(&mut m, cols);
    m.append(" columns wide — the array is positional over the paste's columns");
    m
}

pub open spec fn window_entry_object_msg(i: u64) -> Seq<char> {
    "target_schema entry "@
        + decimal(i as nat)
        + " must be an object or null"@
}

pub fn window_entry_object(i: u64) -> (m: String)
    ensures
        m@ == window_entry_object_msg(i),
{
    let mut m = "target_schema entry ".to_string();
    push_decimal(&mut m, i);
    m.append(" must be an object or null");
    m
}

pub open spec fn window_string_msg(i: u64, key: Seq<char>) -> Seq<char> {
    "target_schema entry "@
        + decimal(i as nat)
        + ": '"@
        + key
        + "' must be a string"@
}

pub fn window_string(i: u64, key: &str) -> (m: String)
    ensures
        m@ == window_string_msg(i, key@),
{
    let mut m = "target_schema entry ".to_string();
    push_decimal(&mut m, i);
    m.append(": '");
    m.append(key);
    m.append("' must be a string");
    m
}

pub open spec fn window_type_msg(i: u64, ty: Seq<char>) -> Seq<char> {
    "target_schema entry "@
        + decimal(i as nat)
        + ": unknown type '"@
        + ty
        + "' (scale | ordinal | nominal)"@
}

pub fn window_type(i: u64, ty: &str) -> (m: String)
    ensures
        m@ == window_type_msg(i, ty@),
{
    let mut m = "target_schema entry ".to_string();
    push_decimal(&mut m, i);
    m.append(": unknown type '");
    m.append(ty);
    m.append("' (scale | ordinal | nominal)");
    m
}

pub open spec fn window_levels_array_msg(i: u64) -> Seq<char> {
    "target_schema entry "@
        + decimal(i as nat)
        + ": 'levels' must be an array of strings"@
}

pub fn window_levels_array(i: u64) -> (m: String)
    ensures
        m@ == window_levels_array_msg(i),
{
    let mut m = "target_schema entry ".to_string();
    push_decimal(&mut m, i);
    m.append(": 'levels' must be an array of strings");
    m
}

pub open spec fn window_levels_strings_msg(i: u64) -> Seq<char> {
    "target_schema entry "@
        + decimal(i as nat)
        + ": 'levels' entries must be strings"@
}

pub fn window_levels_strings(i: u64) -> (m: String)
    ensures
        m@ == window_levels_strings_msg(i),
{
    let mut m = "target_schema entry ".to_string();
    push_decimal(&mut m, i);
    m.append(": 'levels' entries must be strings");
    m
}

pub open spec fn window_names_msg(i: u64, name: Seq<char>, position: u64, current: Seq<char>) -> Seq<char> {
    "target_schema entry "@
        + decimal(i as nat)
        + " names column '"@
        + name
        + "' but position "@
        + decimal(position as nat)
        + " is column '"@
        + current
        + "' — the array is positional over the paste (echo the current name, or use null)"@
}

pub fn window_names(i: u64, name: &str, position: u64, current: &str) -> (m: String)
    ensures
        m@ == window_names_msg(i, name@, position, current@),
{
    let mut m = "target_schema entry ".to_string();
    push_decimal(&mut m, i);
    m.append(" names column '");
    m.append(name);
    m.append("' but position ");
    push_decimal(&mut m, position);
    m.append(" is column '");
    m.append(current);
    m.append("' — the array is positional over the paste (echo the current name, or use null)");
    m
}

pub open spec fn window_retype_msg(ty: Seq<char>, name: Seq<char>, current: Seq<char>) -> Seq<char> {
    "target_schema declares type '"@
        + ty
        + "' for column '"@
        + name
        + "' but it is '"@
        + current
        + "' — retyping is schema_change's job"@
}

pub fn window_retype(ty: &str, name: &str, current: &str) -> (m: String)
    ensures
        m@ == window_retype_msg(ty@, name@, current@),
{
    let mut m = "target_schema declares type '".to_string();
    m.append(ty);
    m.append("' for column '");
    m.append(name);
    m.append("' but it is '");
    m.append(current);
    m.append("' — retyping is schema_change's job");
    m
}

pub open spec fn window_scale_levels_msg(name: Seq<char>) -> Seq<char> {
    "target_schema declares levels for scale column '"@
        + name
        + "' — a scale column has no level list"@
}

pub fn window_scale_levels(name: &str) -> (m: String)
    ensures
        m@ == window_scale_levels_msg(name@),
{
    let mut m = "target_schema declares levels for scale column '".to_string();
    m.append(name);
    m.append("' — a scale column has no level list");
    m
}

pub open spec fn window_name_used_msg(name: Seq<char>) -> Seq<char> {
    "target_schema names a new column '"@
        + name
        + "' but the dataset already has one — declared names must be free"@
}

pub fn window_name_used(name: &str) -> (m: String)
    ensures
        m@ == window_name_used_msg(name@),
{
    let mut m = "target_schema names a new column '".to_string();
    m.append(name);
    m.append("' but the dataset already has one — declared names must be free");
    m
}

pub open spec fn window_name_twice_msg(name: Seq<char>) -> Seq<char> {
    "target_schema declares the name '"@
        + name
        + "' twice"@
}

pub fn window_name_twice(name: &str) -> (m: String)
    ensures
        m@ == window_name_twice_msg(name@),
{
    let mut m = "target_schema declares the name '".to_string();
    m.append(name);
    m.append("' twice");
    m
}

pub open spec fn window_level_twice_msg(level: Seq<char>) -> Seq<char> {
    "target_schema declares the level '"@
        + level
        + "' twice"@
}

pub fn window_level_twice(level: &str) -> (m: String)
    ensures
        m@ == window_level_twice_msg(level@),
{
    let mut m = "target_schema declares the level '".to_string();
    m.append(level);
    m.append("' twice");
    m
}

pub open spec fn entry_string_msg(name: Seq<char>, key: Seq<char>) -> Seq<char> {
    "target_schema '"@
        + name
        + "': '"@
        + key
        + "' must be a string"@
}

pub fn entry_string(name: &str, key: &str) -> (m: String)
    ensures
        m@ == entry_string_msg(name@, key@),
{
    let mut m = "target_schema '".to_string();
    m.append(name);
    m.append("': '");
    m.append(key);
    m.append("' must be a string");
    m
}

pub open spec fn entry_levels_array_msg(name: Seq<char>) -> Seq<char> {
    "target_schema '"@
        + name
        + "': 'levels' must be an array of strings"@
}

pub fn entry_levels_array(name: &str) -> (m: String)
    ensures
        m@ == entry_levels_array_msg(name@),
{
    let mut m = "target_schema '".to_string();
    m.append(name);
    m.append("': 'levels' must be an array of strings");
    m
}

pub open spec fn entry_levels_strings_msg(name: Seq<char>) -> Seq<char> {
    "target_schema '"@
        + name
        + "': 'levels' entries must be strings"@
}

pub fn entry_levels_strings(name: &str) -> (m: String)
    ensures
        m@ == entry_levels_strings_msg(name@),
{
    let mut m = "target_schema '".to_string();
    m.append(name);
    m.append("': 'levels' entries must be strings");
    m
}

pub open spec fn entry_labels_object_msg(name: Seq<char>) -> Seq<char> {
    "target_schema '"@
        + name
        + "': 'labels' must be an object value→display-label"@
}

pub fn entry_labels_object(name: &str) -> (m: String)
    ensures
        m@ == entry_labels_object_msg(name@),
{
    let mut m = "target_schema '".to_string();
    m.append(name);
    m.append("': 'labels' must be an object value→display-label");
    m
}

pub open spec fn entry_label_string_msg(name: Seq<char>, value: Seq<char>) -> Seq<char> {
    "target_schema '"@
        + name
        + "': labels['"@
        + value
        + "'] must be a string"@
}

pub fn entry_label_string(name: &str, value: &str) -> (m: String)
    ensures
        m@ == entry_label_string_msg(name@, value@),
{
    let mut m = "target_schema '".to_string();
    m.append(name);
    m.append("': labels['");
    m.append(value);
    m.append("'] must be a string");
    m
}

pub open spec fn column_set_msg(entries: u64, cols: u64) -> Seq<char> {
    "schema_change never changes the column set: "@
        + decimal(entries as nat)
        + " entries for "@
        + decimal(cols as nat)
        + " columns (structural changes go through insert_cols/delete_cols)"@
}

pub fn column_set(entries: u64, cols: u64) -> (m: String)
    ensures
        m@ == column_set_msg(entries, cols),
{
    let mut m = "schema_change never changes the column set: ".to_string();
    push_decimal(&mut m, entries);
    m.append(" entries for ");
    push_decimal(&mut m, cols);
    m.append(" columns (structural changes go through insert_cols/delete_cols)");
    m
}

pub open spec fn no_such_column_msg(name: Seq<char>) -> Seq<char> {
    "target_schema names column '"@
        + name
        + "' — the dataset has no such column"@
}

pub fn no_such_column(name: &str) -> (m: String)
    ensures
        m@ == no_such_column_msg(name@),
{
    let mut m = "target_schema names column '".to_string();
    m.append(name);
    m.append("' — the dataset has no such column");
    m
}

pub open spec fn entry_ambiguous_msg(name: Seq<char>) -> Seq<char> {
    "target_schema entry '"@
        + name
        + "' is duplicated"@
}

pub fn entry_ambiguous(name: &str) -> (m: String)
    ensures
        m@ == entry_ambiguous_msg(name@),
{
    let mut m = "target_schema entry '".to_string();
    m.append(name);
    m.append("' is duplicated");
    m
}

pub open spec fn named_twice_msg(name: Seq<char>) -> Seq<char> {
    "target_schema names column '"@
        + name
        + "' twice"@
}

pub fn named_twice(name: &str) -> (m: String)
    ensures
        m@ == named_twice_msg(name@),
{
    let mut m = "target_schema names column '".to_string();
    m.append(name);
    m.append("' twice");
    m
}

pub open spec fn unknown_type_msg(ty: Seq<char>) -> Seq<char> {
    "unknown type '"@
        + ty
        + "' (scale | ordinal | nominal)"@
}

pub fn unknown_type(ty: &str) -> (m: String)
    ensures
        m@ == unknown_type_msg(ty@),
{
    let mut m = "unknown type '".to_string();
    m.append(ty);
    m.append("' (scale | ordinal | nominal)");
    m
}

pub open spec fn cap_levels_msg(distinct: u64, cap: u64) -> Seq<char> {
    "distinct_count "@
        + decimal(distinct as nat)
        + " exceeds the wire cap "@
        + decimal(cap as nat)
        + " — the full label list cannot be rewritten"@
}

pub fn cap_levels(distinct: u64, cap: u64) -> (m: String)
    ensures
        m@ == cap_levels_msg(distinct, cap),
{
    let mut m = "distinct_count ".to_string();
    push_decimal(&mut m, distinct);
    m.append(" exceeds the wire cap ");
    push_decimal(&mut m, cap);
    m.append(" — the full label list cannot be rewritten");
    m
}

pub open spec fn in_use_msg(levels: Seq<char>) -> Seq<char> {
    "level(s) in use cannot be deleted: "@
        + levels
}

pub fn in_use(levels: &str) -> (m: String)
    ensures
        m@ == in_use_msg(levels@),
{
    let mut m = "level(s) in use cannot be deleted: ".to_string();
    m.append(levels);
    m
}

pub open spec fn not_numbers_msg(levels: Seq<char>) -> Seq<char> {
    "cannot retype to scale — level(s) in use are not numbers: "@
        + levels
}

pub fn not_numbers(levels: &str) -> (m: String)
    ensures
        m@ == not_numbers_msg(levels@),
{
    let mut m = "cannot retype to scale — level(s) in use are not numbers: ".to_string();
    m.append(levels);
    m
}

pub open spec fn cap_values_msg(distinct: u64, cap: u64) -> Seq<char> {
    decimal(distinct as nat)
        + " distinct values exceed the wire cap "@
        + decimal(cap as nat)
        + " — a full label list cannot be declared for it"@
}

pub fn cap_values(distinct: u64, cap: u64) -> (m: String)
    ensures
        m@ == cap_values_msg(distinct, cap),
{
    let mut m = decimal_text(distinct);
    m.append(" distinct values exceed the wire cap ");
    push_decimal(&mut m, cap);
    m.append(" — a full label list cannot be declared for it");
    m
}

pub open spec fn no_declared_level_msg(levels: Seq<char>) -> Seq<char> {
    "value(s) in the data have no declared level: "@
        + levels
}

pub fn no_declared_level(levels: &str) -> (m: String)
    ensures
        m@ == no_declared_level_msg(levels@),
{
    let mut m = "value(s) in the data have no declared level: ".to_string();
    m.append(levels);
    m
}

pub open spec fn label_unknown_msg(value: Seq<char>) -> Seq<char> {
    "labels reference '"@
        + value
        + "' — no such level in the column"@
}

pub fn label_unknown(value: &str) -> (m: String)
    ensures
        m@ == label_unknown_msg(value@),
{
    let mut m = "labels reference '".to_string();
    m.append(value);
    m.append("' — no such level in the column");
    m
}

pub open spec fn blob_fault_msg(e: Seq<char>) -> Seq<char> {
    "the inverse blob does not decode: "@
        + e
}

pub fn blob_fault(e: &str) -> (m: String)
    ensures
        m@ == blob_fault_msg(e@),
{
    let mut m = "the inverse blob does not decode: ".to_string();
    m.append(e);
    m
}

pub open spec fn blob_type_msg(name: Seq<char>, ty: Seq<char>) -> Seq<char> {
    "inverse blob column '"@
        + name
        + "' has unsupported type "@
        + ty
}

pub fn blob_type(name: &str, ty: &str) -> (m: String)
    ensures
        m@ == blob_type_msg(name@, ty@),
{
    let mut m = "inverse blob column '".to_string();
    m.append(name);
    m.append("' has unsupported type ");
    m.append(ty);
    m
}

pub open spec fn program_string_msg(key: Seq<char>) -> Seq<char> {
    "restore_schema program: each column entry needs a string '"@
        + key
        + "'"@
}

pub fn program_string(key: &str) -> (m: String)
    ensures
        m@ == program_string_msg(key@),
{
    let mut m = "restore_schema program: each column entry needs a string '".to_string();
    m.append(key);
    m.append("'");
    m
}

pub open spec fn program_type_msg(ty: Seq<char>) -> Seq<char> {
    "restore_schema program: unknown old_type '"@
        + ty
        + "'"@
}

pub fn program_type(ty: &str) -> (m: String)
    ensures
        m@ == program_type_msg(ty@),
{
    let mut m = "restore_schema program: unknown old_type '".to_string();
    m.append(ty);
    m.append("'");
    m
}

pub open spec fn program_number_msg(key: Seq<char>) -> Seq<char> {
    "inverse program: missing u64 '"@
        + key
        + "'"@
}

pub fn program_number(key: &str) -> (m: String)
    ensures
        m@ == program_number_msg(key@),
{
    let mut m = "inverse program: missing u64 '".to_string();
    m.append(key);
    m.append("'");
    m
}

pub open spec fn unknown_format_msg(format: Seq<char>) -> Seq<char> {
    "unknown inverse format '"@
        + format
        + "' (this lane speaks arrow_ipc_v1)"@
}

pub fn unknown_format(format: &str) -> (m: String)
    ensures
        m@ == unknown_format_msg(format@),
{
    let mut m = "unknown inverse format '".to_string();
    m.append(format);
    m.append("' (this lane speaks arrow_ipc_v1)");
    m
}

pub open spec fn stale_inverse_msg(base: u64, current: u64) -> Seq<char> {
    "the inverse was computed at revision "@
        + decimal(base as nat)
        + " but the dataset is at "@
        + decimal(current as nat)
        + " — the stack is no longer LIFO"@
}

pub fn stale_inverse(base: u64, current: u64) -> (m: String)
    ensures
        m@ == stale_inverse_msg(base, current),
{
    let mut m = "the inverse was computed at revision ".to_string();
    push_decimal(&mut m, base);
    m.append(" but the dataset is at ");
    push_decimal(&mut m, current);
    m.append(" — the stack is no longer LIFO");
    m
}

pub open spec fn unknown_program_msg(op: Seq<char>) -> Seq<char> {
    "unknown inverse program '"@
        + op
        + "'"@
}

pub fn unknown_program(op: &str) -> (m: String)
    ensures
        m@ == unknown_program_msg(op@),
{
    let mut m = "unknown inverse program '".to_string();
    m.append(op);
    m.append("'");
    m
}

pub open spec fn restore_rows_extent_msg(at: u64, count: u64, rows: u64, expected: u64) -> Seq<char> {
    "restore_rows at "@
        + decimal(at as nat)
        + " count "@
        + decimal(count as nat)
        + ": inconsistent with the "@
        + decimal(rows as nat)
        + "-row dataset (the program expects "@
        + decimal(expected as nat)
        + " after restore)"@
}

pub fn restore_rows_extent(at: u64, count: u64, rows: u64, expected: u64) -> (m: String)
    ensures
        m@ == restore_rows_extent_msg(at, count, rows, expected),
{
    let mut m = "restore_rows at ".to_string();
    push_decimal(&mut m, at);
    m.append(" count ");
    push_decimal(&mut m, count);
    m.append(": inconsistent with the ");
    push_decimal(&mut m, rows);
    m.append("-row dataset (the program expects ");
    push_decimal(&mut m, expected);
    m.append(" after restore)");
    m
}

pub open spec fn restore_cols_extent_msg(at: u64, count: u64, cols: u64, expected: u64) -> Seq<char> {
    "restore_cols at "@
        + decimal(at as nat)
        + " count "@
        + decimal(count as nat)
        + ": inconsistent with the "@
        + decimal(cols as nat)
        + "-column dataset (the program expects "@
        + decimal(expected as nat)
        + " after restore)"@
}

pub fn restore_cols_extent(at: u64, count: u64, cols: u64, expected: u64) -> (m: String)
    ensures
        m@ == restore_cols_extent_msg(at, count, cols, expected),
{
    let mut m = "restore_cols at ".to_string();
    push_decimal(&mut m, at);
    m.append(" count ");
    push_decimal(&mut m, count);
    m.append(": inconsistent with the ");
    push_decimal(&mut m, cols);
    m.append("-column dataset (the program expects ");
    push_decimal(&mut m, expected);
    m.append(" after restore)");
    m
}

pub open spec fn restore_schema_extent_msg(cols: u64, rows: u64, has_cols: u64, has_rows: u64) -> Seq<char> {
    "restore_schema: the program expects "@
        + decimal(cols as nat)
        + " columns × "@
        + decimal(rows as nat)
        + " rows but the dataset has "@
        + decimal(has_cols as nat)
        + " × "@
        + decimal(has_rows as nat)
        + " (schema_change never changes the extent — a later structural edit broke the stack)"@
}

pub fn restore_schema_extent(cols: u64, rows: u64, has_cols: u64, has_rows: u64) -> (m: String)
    ensures
        m@ == restore_schema_extent_msg(cols, rows, has_cols, has_rows),
{
    let mut m = "restore_schema: the program expects ".to_string();
    push_decimal(&mut m, cols);
    m.append(" columns × ");
    push_decimal(&mut m, rows);
    m.append(" rows but the dataset has ");
    push_decimal(&mut m, has_cols);
    m.append(" × ");
    push_decimal(&mut m, has_rows);
    m.append(" (schema_change never changes the extent — a later structural edit broke the stack)");
    m
}

pub open spec fn restore_no_column_msg(name: Seq<char>) -> Seq<char> {
    "restore_schema: the program names column '"@
        + name
        + "' — the dataset has no such column"@
}

pub fn restore_no_column(name: &str) -> (m: String)
    ensures
        m@ == restore_no_column_msg(name@),
{
    let mut m = "restore_schema: the program names column '".to_string();
    m.append(name);
    m.append("' — the dataset has no such column");
    m
}

pub open spec fn restore_blob_column_msg(name: Seq<char>) -> Seq<char> {
    "restore_schema: the blob has no column '"@
        + name
        + "' — the capture is incomplete"@
}

pub fn restore_blob_column(name: &str) -> (m: String)
    ensures
        m@ == restore_blob_column_msg(name@),
{
    let mut m = "restore_schema: the blob has no column '".to_string();
    m.append(name);
    m.append("' — the capture is incomplete");
    m
}

pub open spec fn restore_physical_msg(name: Seq<char>) -> Seq<char> {
    "restore_schema: column '"@
        + name
        + "' claims a metadata-only change but the physical type disagrees — the program is corrupt"@
}

pub fn restore_physical(name: &str) -> (m: String)
    ensures
        m@ == restore_physical_msg(name@),
{
    let mut m = "restore_schema: column '".to_string();
    m.append(name);
    m.append("' claims a metadata-only change but the physical type disagrees — the program is corrupt");
    m
}

pub open spec fn restore_order_msg(name: Seq<char>) -> Seq<char> {
    "restore_schema: 'old_order' names column '"@
        + name
        + "' — no entry restores it and the dataset has no such column"@
}

pub fn restore_order(name: &str) -> (m: String)
    ensures
        m@ == restore_order_msg(name@),
{
    let mut m = "restore_schema: 'old_order' names column '".to_string();
    m.append(name);
    m.append("' — no entry restores it and the dataset has no such column");
    m
}

pub open spec fn unsupported_msg(name: Seq<char>, ty: Seq<char>) -> Seq<char> {
    "column '"@
        + name
        + "' has unsupported type "@
        + ty
        + " (the v1 cache holds Float64 + Dictionary(Int32, Utf8) only)"@
}

pub fn unsupported(name: &str, ty: &str) -> (m: String)
    ensures
        m@ == unsupported_msg(name@, ty@),
{
    let mut m = "column '".to_string();
    m.append(name);
    m.append("' has unsupported type ");
    m.append(ty);
    m.append(" (the v1 cache holds Float64 + Dictionary(Int32, Utf8) only)");
    m
}

} // verus!

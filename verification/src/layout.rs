//! The byte layout of a container, as a function from a project to bytes.
//!
//! A container is a header, one record for each file, and a string table. Every
//! text of the project is stored once, in the table, and records refer to it
//! by its index. Every number is an unsigned 4-byte little-endian integer.
//!
//! | at | field |
//! |---|---|
//! | 0 | magic byte |
//! | 1 | format version |
//! | 5 | position of the string table |
//! | 9 | number of files |
//! | 13 | the file records |
//! | after the records | the string table |

use crate::asset::{FileView, ProjectView, RangeView, SpanView};
use crate::wire::{field, u32_le};
use vstd::prelude::*;
use vstd::utf8::encode_utf8;

verus! {

/// The first byte of every container.
pub const MAGIC: u8 = 0xde;

/// The one format version that is written and understood.
pub const ASSET_ENCODING_VERSION: u32 = 1;

/// The length of the header: magic byte, version, table position, file count.
pub const HEADER_LEN: usize = 13;

/// Where in the header the position of the string table stands.
pub const TABLE_OFFSET_POS: usize = 5;

/// The strings of a list of nodes or annotations, in order.
pub open spec fn span_texts(spans: Seq<SpanView>) -> Seq<Seq<char>> {
    spans.map_values(|x: SpanView| x.text)
}

/// Every string of a file in the order in which the table is built: path,
/// content, the type of each node, the text of each annotation.
pub open spec fn file_strings(f: FileView) -> Seq<Seq<char>> {
    seq![f.path, f.content] + span_texts(f.tree) + span_texts(f.errors)
}

/// Every string of the files, file by file.
pub open spec fn files_strings(files: Seq<FileView>) -> Seq<Seq<char>>
    decreases files.len(),
{
    if files.len() == 0 {
        Seq::empty()
    } else {
        file_strings(files[0]) + files_strings(files.skip(1))
    }
}

/// A table after `s` was added: unchanged if it holds `s`, else one longer.
pub open spec fn intern(table: Seq<Seq<char>>, s: Seq<char>) -> Seq<Seq<char>> {
    if table.contains(s) {
        table
    } else {
        table.push(s)
    }
}

/// A table after each of `strings` was added, first to last.
pub open spec fn intern_all(table: Seq<Seq<char>>, strings: Seq<Seq<char>>) -> Seq<Seq<char>>
    decreases strings.len(),
{
    if strings.len() == 0 {
        table
    } else {
        intern_all(intern(table, strings[0]), strings.skip(1))
    }
}

/// The string table of a project: each distinct string once, in the order of
/// its first occurrence.
pub open spec fn string_table(p: ProjectView) -> Seq<Seq<char>> {
    intern_all(Seq::empty(), files_strings(p.files))
}

/// A range as two fields.
pub open spec fn encode_range(r: RangeView) -> Seq<u8> {
    field(r.offset as int) + field(r.end_offset as int)
}

/// A node or an annotation: its range, then the index of its string.
pub open spec fn encode_span(x: SpanView, table: Seq<Seq<char>>) -> Seq<u8> {
    encode_range(x.range) + field(table.index_of(x.text))
}

/// Nodes or annotations one after the other.
pub open spec fn encode_spans(spans: Seq<SpanView>, table: Seq<Seq<char>>) -> Seq<u8>
    decreases spans.len(),
{
    if spans.len() == 0 {
        Seq::empty()
    } else {
        encode_span(spans[0], table) + encode_spans(spans.skip(1), table)
    }
}

/// The record of a file: the indices of path and content, the counted nodes,
/// the counted annotations.
pub open spec fn encode_file(f: FileView, table: Seq<Seq<char>>) -> Seq<u8> {
    field(table.index_of(f.path)) + field(table.index_of(f.content)) + field(f.tree.len() as int)
        + encode_spans(f.tree, table) + field(f.errors.len() as int) + encode_spans(
        f.errors,
        table,
    )
}

/// The records of the files one after the other.
pub open spec fn encode_files(files: Seq<FileView>, table: Seq<Seq<char>>) -> Seq<u8>
    decreases files.len(),
{
    if files.len() == 0 {
        Seq::empty()
    } else {
        encode_file(files[0], table) + encode_files(files.skip(1), table)
    }
}

/// A string of the table: the length of its UTF-8 form, then that form.
pub open spec fn encode_string(s: Seq<char>) -> Seq<u8> {
    field(encode_utf8(s).len() as int) + encode_utf8(s)
}

/// The strings of the table one after the other.
pub open spec fn encode_strings(strings: Seq<Seq<char>>) -> Seq<u8>
    decreases strings.len(),
{
    if strings.len() == 0 {
        Seq::empty()
    } else {
        encode_string(strings[0]) + encode_strings(strings.skip(1))
    }
}

/// The string table: the number of strings, then the strings.
pub open spec fn encode_string_table(table: Seq<Seq<char>>) -> Seq<u8> {
    field(table.len() as int) + encode_strings(table)
}

/// The header of a container whose string table stands at `table_offset`.
pub open spec fn encode_header(table_offset: int, file_count: int) -> Seq<u8> {
    seq![MAGIC] + u32_le(ASSET_ENCODING_VERSION) + field(table_offset) + field(file_count)
}

/// The container of `p`, written at position `base` of a stream. The header
/// records where in the stream the string table begins.
pub open spec fn encode_container(p: ProjectView, base: int) -> Seq<u8> {
    let table = string_table(p);
    let records = encode_files(p.files, table);
    encode_header(base + HEADER_LEN + records.len(), p.files.len() as int) + records
        + encode_string_table(table)
}

/// Every one of `strings` stands in `table`.
pub open spec fn holds_all(table: Seq<Seq<char>>, strings: Seq<Seq<char>>) -> bool {
    forall|k: int| 0 <= k < strings.len() ==> table.contains(#[trigger] strings[k])
}

/// Adding two lists in a row is adding their concatenation.
pub proof fn lemma_intern_all_concat(table: Seq<Seq<char>>, a: Seq<Seq<char>>, b: Seq<Seq<char>>)
    ensures
        intern_all(table, a + b) == intern_all(intern_all(table, a), b),
    decreases a.len(),
{
    if a.len() == 0 {
        assert(a + b =~= b);
    } else {
        assert((a + b).skip(1) =~= a.skip(1) + b);
        lemma_intern_all_concat(intern(table, a[0]), a.skip(1), b);
    }
}

/// Adding strings keeps the strings that a table held, at their places, and
/// leaves every added string in the table.
pub proof fn lemma_intern_all_holds(table: Seq<Seq<char>>, strings: Seq<Seq<char>>)
    ensures
        table.len() <= intern_all(table, strings).len() <= table.len() + strings.len(),
        intern_all(table, strings).take(table.len() as int) == table,
        holds_all(intern_all(table, strings), strings),
        table.no_duplicates() ==> intern_all(table, strings).no_duplicates(),
    decreases strings.len(),
{
    let result = intern_all(table, strings);
    if strings.len() == 0 {
        assert(result.take(table.len() as int) =~= table);
    } else {
        let next = intern(table, strings[0]);
        lemma_intern_all_holds(next, strings.skip(1));
        assert(result.take(table.len() as int) =~= result.take(next.len() as int).take(
            table.len() as int,
        ));
        assert(next.take(table.len() as int) =~= table);
        assert forall|k: int| 0 <= k < strings.len() implies result.contains(
            #[trigger] strings[k],
        ) by {
            if k == 0 {
                let at = next.index_of(strings[0]);
                assert(next.contains(strings[0])) by {
                    if !table.contains(strings[0]) {
                        assert(next[table.len() as int] == strings[0]);
                    }
                }
                assert(result.take(next.len() as int)[at] == strings[0]);
                assert(result[at] == strings[0]);
            } else {
                assert(strings.skip(1)[k - 1] == strings[k]);
            }
        }
    }
}

/// A table that holds every string of the files holds every string of each.
pub proof fn lemma_holds_each_file(table: Seq<Seq<char>>, files: Seq<FileView>, i: int)
    requires
        holds_all(table, files_strings(files)),
        0 <= i < files.len(),
    ensures
        holds_all(table, file_strings(files[i])),
    decreases files.len(),
{
    let first = file_strings(files[0]);
    let rest = files_strings(files.skip(1));
    if i == 0 {
        assert forall|k: int| 0 <= k < first.len() implies table.contains(#[trigger] first[k]) by {
            assert((first + rest)[k] == first[k]);
        }
    } else {
        assert forall|k: int| 0 <= k < rest.len() implies table.contains(#[trigger] rest[k]) by {
            assert((first + rest)[first.len() + k] == rest[k]);
        }
        lemma_holds_each_file(table, files.skip(1), i - 1);
    }
}

} // verus!

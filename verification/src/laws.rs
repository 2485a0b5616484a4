//! What holds of every container: a project that is written and read back is
//! unchanged, and a stream that is not a container is refused by the check
//! that it fails.

use crate::asset::{FileView, ProjectView, SpanView};
use crate::error::AssetError;
use crate::layout::{
    encode_container, encode_file, encode_files, encode_header, encode_range, encode_span,
    encode_spans, encode_string, encode_string_table, encode_strings, file_strings, files_strings,
    holds_all, intern, intern_all, lemma_holds_each_file, lemma_intern_all_holds, span_texts,
    string_table, ASSET_ENCODING_VERSION, HEADER_LEN, MAGIC,
};
use crate::parse::{
    parse_container, parse_counted_spans, parse_file, parse_files, parse_span, parse_spans,
    parse_string, parse_string_table, parse_strings, };
use crate::stream::{overwrite, Stream};
use crate::wire::{field, lemma_u32_le_roundtrip, parse_u32, u32_from_le, u32_le};
use vstd::prelude::*;
use vstd::utf8::{encode_utf8, encode_utf8_decode_utf8, encode_utf8_valid_utf8};

verus! {

/// Both offsets of the range fit a 4-byte field.
pub open spec fn span_fits(x: SpanView) -> bool {
    x.range.offset <= u32::MAX && x.range.end_offset <= u32::MAX
}

/// Every range of the file fits.
pub open spec fn file_fits(f: FileView) -> bool {
    &&& forall|j: int| 0 <= j < f.tree.len() ==> span_fits(#[trigger] f.tree[j])
    &&& forall|j: int| 0 <= j < f.errors.len() ==> span_fits(#[trigger] f.errors[j])
}

/// Every number that the container of `p`, written at `base`, has to hold
/// fits a 4-byte field: the position at which the records end, every offset
/// of a range, and the length in bytes of every string.
pub open spec fn fits(p: ProjectView, base: int) -> bool {
    &&& 0 <= base
    &&& base + HEADER_LEN + encode_files(p.files, string_table(p)).len() <= u32::MAX
    &&& forall|i: int| 0 <= i < p.files.len() ==> file_fits(#[trigger] p.files[i])
    &&& forall|k: int|
        0 <= k < files_strings(p.files).len() ==> encode_utf8(
            #[trigger] files_strings(p.files)[k],
        ).len() <= u32::MAX
}

/// The stream holds `data` at its position.
pub open spec fn holds_at(s: Stream, data: Seq<u8>) -> bool {
    data.len() <= s.available() && s.peek(data.len()) == data
}

proof fn lemma_holds_split(s: Stream, a: Seq<u8>, b: Seq<u8>)
    requires
        holds_at(s, a + b),
    ensures
        holds_at(s, a),
        holds_at(s.skip(a.len()), b),
{
    let whole = s.peek((a + b).len());
    assert(s.peek(a.len()) =~= a) by {
        assert forall|i: int| 0 <= i < a.len() implies s.peek(a.len())[i] == a[i] by {
            assert(whole[i] == (a + b)[i]);
        }
    }
    assert(s.skip(a.len()).peek(b.len()) =~= b) by {
        assert forall|i: int| 0 <= i < b.len() implies s.skip(a.len()).peek(b.len())[i]
            == b[i] by {
            assert(whole[a.len() + i] == (a + b)[a.len() + i]);
        }
    }
}

proof fn lemma_parse_field(s: Stream, n: int)
    requires
        holds_at(s, field(n)),
        0 <= n <= u32::MAX,
    ensures
        parse_u32(s) == Ok::<(u32, Stream), AssetError>((n as u32, s.skip(4))),
{
    lemma_u32_le_roundtrip(n as u32);
}

proof fn lemma_parse_string(s: Stream, text: Seq<char>)
    requires
        holds_at(s, encode_string(text)),
        encode_utf8(text).len() <= u32::MAX,
    ensures
        parse_string(s) == Ok::<(Seq<char>, Stream), AssetError>(
            (text, s.skip(encode_string(text).len())),
        ),
        encode_string(text).len() == 4 + encode_utf8(text).len(),
{
    let bytes = encode_utf8(text);
    lemma_u32_le_roundtrip(bytes.len() as u32);
    lemma_holds_split(s, field(bytes.len() as int), bytes);
    lemma_parse_field(s, bytes.len() as int);
    encode_utf8_valid_utf8(text);
    encode_utf8_decode_utf8(text);
}

proof fn lemma_parse_strings(s: Stream, strings: Seq<Seq<char>>)
    requires
        holds_at(s, encode_strings(strings)),
        forall|k: int|
            0 <= k < strings.len() ==> encode_utf8(#[trigger] strings[k]).len() <= u32::MAX,
    ensures
        parse_strings(s, strings.len()) == Ok::<(Seq<Seq<char>>, Stream), AssetError>(
            (strings, s.skip(encode_strings(strings).len())),
        ),
    decreases strings.len(),
{
    if strings.len() == 0 {
        assert(strings =~= Seq::<Seq<char>>::empty());
    } else {
        let first = encode_string(strings[0]);
        let rest = strings.skip(1);
        lemma_holds_split(s, first, encode_strings(rest));
        lemma_parse_string(s, strings[0]);
        assert forall|k: int| 0 <= k < rest.len() implies encode_utf8(#[trigger] rest[k]).len()
            <= u32::MAX by {
            assert(rest[k] == strings[k + 1]);
        }
        lemma_parse_strings(s.skip(first.len()), rest);
        assert(seq![strings[0]] + rest =~= strings);
    }
}

proof fn lemma_parse_string_table(s: Stream, table: Seq<Seq<char>>)
    requires
        holds_at(s, encode_string_table(table)),
        table.len() <= u32::MAX,
        forall|k: int| 0 <= k < table.len() ==> encode_utf8(#[trigger] table[k]).len() <= u32::MAX,
    ensures
        parse_string_table(s) == Ok::<(Seq<Seq<char>>, Stream), AssetError>(
            (table, s.skip(encode_string_table(table).len())),
        ),
{
    lemma_u32_le_roundtrip(table.len() as u32);
    lemma_holds_split(s, field(table.len() as int), encode_strings(table));
    lemma_parse_field(s, table.len() as int);
    lemma_parse_strings(s.skip(4), table);
}

proof fn lemma_parse_span(s: Stream, x: SpanView, table: Seq<Seq<char>>)
    requires
        holds_at(s, encode_span(x, table)),
        span_fits(x),
        table.contains(x.text),
        table.len() <= u32::MAX,
    ensures
        parse_span(s, table) == Ok::<(SpanView, Stream), AssetError>((x, s.skip(12))),
        encode_span(x, table).len() == 12,
{
    let index = table.index_of(x.text);
    lemma_u32_le_roundtrip(0);
    lemma_holds_split(s, encode_range(x.range), field(index));
    lemma_holds_split(s, field(x.range.offset as int), field(x.range.end_offset as int));
    lemma_parse_field(s, x.range.offset as int);
    lemma_parse_field(s.skip(4), x.range.end_offset as int);
    lemma_parse_field(s.skip(8), index);
}

proof fn lemma_parse_spans(s: Stream, spans: Seq<SpanView>, table: Seq<Seq<char>>)
    requires
        holds_at(s, encode_spans(spans, table)),
        forall|j: int| 0 <= j < spans.len() ==> span_fits(#[trigger] spans[j]),
        holds_all(table, span_texts(spans)),
        table.len() <= u32::MAX,
    ensures
        parse_spans(s, table, spans.len()) == Ok::<(Seq<SpanView>, Stream), AssetError>(
            (spans, s.skip(12 * spans.len())),
        ),
        encode_spans(spans, table).len() == 12 * spans.len(),
    decreases spans.len(),
{
    if spans.len() == 0 {
        assert(spans =~= Seq::<SpanView>::empty());
    } else {
        let rest = spans.skip(1);
        assert(span_texts(spans)[0] == spans[0].text);
        lemma_holds_split(s, encode_span(spans[0], table), encode_spans(rest, table));
        lemma_parse_span(s, spans[0], table);
        assert forall|j: int| 0 <= j < rest.len() implies span_fits(#[trigger] rest[j]) by {
            assert(rest[j] == spans[j + 1]);
        }
        assert forall|k: int| 0 <= k < span_texts(rest).len() implies table.contains(
            #[trigger] span_texts(rest)[k],
        ) by {
            assert(span_texts(rest)[k] == span_texts(spans)[k + 1]);
        }
        lemma_parse_spans(s.skip(12), rest, table);
        assert(seq![spans[0]] + rest =~= spans);
    }
}

/// The length of what `encode_spans` gives, whatever the table.
proof fn lemma_spans_len(spans: Seq<SpanView>, table: Seq<Seq<char>>)
    ensures
        encode_spans(spans, table).len() == 12 * spans.len(),
    decreases spans.len(),
{
    lemma_u32_le_roundtrip(0);
    if spans.len() > 0 {
        lemma_spans_len(spans.skip(1), table);
    }
}

/// The length of a file's record, and the number of its strings.
proof fn lemma_file_len(f: FileView, table: Seq<Seq<char>>)
    ensures
        encode_file(f, table).len() == 16 + 12 * f.tree.len() + 12 * f.errors.len(),
        file_strings(f).len() == 2 + f.tree.len() + f.errors.len(),
{
    lemma_u32_le_roundtrip(0);
    lemma_spans_len(f.tree, table);
    lemma_spans_len(f.errors, table);
}

/// The records are at least as long as any one of them, and hold at least
/// four bytes for each string of the files.
proof fn lemma_files_len(files: Seq<FileView>, table: Seq<Seq<char>>)
    ensures
        4 * files_strings(files).len() <= encode_files(files, table).len(),
        16 * files.len() <= encode_files(files, table).len(),
        forall|i: int|
            0 <= i < files.len() ==> encode_file(#[trigger] files[i], table).len() <= encode_files(
                files,
                table,
            ).len(),
    decreases files.len(),
{
    if files.len() > 0 {
        let rest = files.skip(1);
        lemma_file_len(files[0], table);
        lemma_files_len(rest, table);
        assert forall|i: int| 0 <= i < files.len() implies encode_file(
            #[trigger] files[i],
            table,
        ).len() <= encode_files(files, table).len() by {
            if i > 0 {
                assert(rest[i - 1] == files[i]);
            }
        }
    }
}

proof fn lemma_parse_file(s: Stream, f: FileView, table: Seq<Seq<char>>)
    requires
        holds_at(s, encode_file(f, table)),
        file_fits(f),
        holds_all(table, file_strings(f)),
        table.len() <= u32::MAX,
        encode_file(f, table).len() <= u32::MAX,
    ensures
        parse_file(s, table) == Ok::<(FileView, Stream), AssetError>(
            (f, s.skip(encode_file(f, table).len())),
        ),
{
    let strings = file_strings(f);
    let path = field(table.index_of(f.path));
    let content = field(table.index_of(f.content));
    let tree_count = field(f.tree.len() as int);
    let tree = encode_spans(f.tree, table);
    let errors_count = field(f.errors.len() as int);
    let errors = encode_spans(f.errors, table);
    lemma_u32_le_roundtrip(0);
    lemma_file_len(f, table);
    lemma_spans_len(f.tree, table);
    lemma_spans_len(f.errors, table);
    assert(strings[0] == f.path);
    assert(strings[1] == f.content);
    assert forall|k: int| 0 <= k < span_texts(f.tree).len() implies table.contains(
        #[trigger] span_texts(f.tree)[k],
    ) by {
        assert(strings[2 + k] == span_texts(f.tree)[k]);
    }
    assert forall|k: int| 0 <= k < span_texts(f.errors).len() implies table.contains(
        #[trigger] span_texts(f.errors)[k],
    ) by {
        assert(strings[2 + f.tree.len() + k] == span_texts(f.errors)[k]);
    }
    lemma_holds_split(s, path + content + tree_count + tree + errors_count, errors);
    lemma_holds_split(s, path + content + tree_count + tree, errors_count);
    lemma_holds_split(s, path + content + tree_count, tree);
    lemma_holds_split(s, path + content, tree_count);
    lemma_holds_split(s, path, content);
    lemma_parse_field(s, table.index_of(f.path));
    lemma_parse_field(s.skip(4), table.index_of(f.content));
    lemma_parse_field(s.skip(8), f.tree.len() as int);
    lemma_parse_spans(s.skip(12), f.tree, table);
    let s3 = s.skip(12).skip(12 * f.tree.len());
    assert(s3 == s.skip((path + content + tree_count + tree).len()));
    lemma_parse_field(s3, f.errors.len() as int);
    assert(s3.skip(4) == s.skip((path + content + tree_count + tree + errors_count).len()));
    lemma_parse_spans(s3.skip(4), f.errors, table);
    assert(parse_counted_spans(s.skip(8), table) == Ok::<(Seq<SpanView>, Stream), AssetError>(
        (f.tree, s3),
    ));
    assert(parse_counted_spans(s3, table) == Ok::<(Seq<SpanView>, Stream), AssetError>(
        (f.errors, s3.skip(4).skip(12 * f.errors.len())),
    ));
}

proof fn lemma_parse_files(s: Stream, files: Seq<FileView>, table: Seq<Seq<char>>)
    requires
        holds_at(s, encode_files(files, table)),
        forall|i: int| 0 <= i < files.len() ==> file_fits(#[trigger] files[i]),
        holds_all(table, files_strings(files)),
        table.len() <= u32::MAX,
        encode_files(files, table).len() <= u32::MAX,
    ensures
        parse_files(s, table, files.len()) == Ok::<(Seq<FileView>, Stream), AssetError>(
            (files, s.skip(encode_files(files, table).len())),
        ),
    decreases files.len(),
{
    if files.len() == 0 {
        assert(files =~= Seq::<FileView>::empty());
    } else {
        let first = encode_file(files[0], table);
        let rest = files.skip(1);
        lemma_files_len(files, table);
        lemma_holds_each_file(table, files, 0);
        lemma_holds_split(s, first, encode_files(rest, table));
        lemma_parse_file(s, files[0], table);
        assert forall|i: int| 0 <= i < rest.len() implies file_fits(#[trigger] rest[i]) by {
            assert(rest[i] == files[i + 1]);
        }
        assert forall|k: int| 0 <= k < files_strings(rest).len() implies table.contains(
            #[trigger] files_strings(rest)[k],
        ) by {
            assert(files_strings(files)[file_strings(files[0]).len() + k] == files_strings(
                rest,
            )[k]);
        }
        lemma_parse_files(s.skip(first.len()), rest, table);
        assert(seq![files[0]] + rest =~= files);
    }
}

/// Every string of a table that was built from nothing is one of the strings
/// that were added.
proof fn lemma_intern_all_only(table: Seq<Seq<char>>, strings: Seq<Seq<char>>, k: int)
    requires
        0 <= k < intern_all(table, strings).len(),
    ensures
        table.contains(intern_all(table, strings)[k]) || strings.contains(
            intern_all(table, strings)[k],
        ),
    decreases strings.len(),
{
    if strings.len() > 0 {
        let next = intern(table, strings[0]);
        let rest = strings.skip(1);
        lemma_intern_all_only(next, rest, k);
        let x = intern_all(table, strings)[k];
        if next.contains(x) {
            let at = next.index_of(x);
            if at < table.len() {
                assert(table[at] == x);
            } else {
                assert(strings[0] == x);
            }
        } else {
            let at = rest.index_of(x);
            assert(strings[at + 1] == x);
        }
    } else {
        assert(table[k] == intern_all(table, strings)[k]);
    }
}

/// A project that fits has a table whose strings and whose length fit.
proof fn lemma_table_fits(p: ProjectView, base: int)
    requires
        fits(p, base),
    ensures
        string_table(p).len() <= u32::MAX,
        string_table(p).no_duplicates(),
        holds_all(string_table(p), files_strings(p.files)),
        forall|k: int|
            0 <= k < string_table(p).len() ==> encode_utf8(#[trigger] string_table(p)[k]).len()
                <= u32::MAX,
{
    let strings = files_strings(p.files);
    let table = string_table(p);
    lemma_intern_all_holds(Seq::empty(), strings);
    lemma_files_len(p.files, table);
    assert forall|k: int| 0 <= k < table.len() implies encode_utf8(#[trigger] table[k]).len()
        <= u32::MAX by {
        lemma_intern_all_only(Seq::empty(), strings, k);
        let at = strings.index_of(table[k]);
        assert(strings[at] == table[k]);
    }
}

/// What was written at a position is what the stream holds there.
proof fn lemma_write_holds(s: Stream, data: Seq<u8>)
    ensures
        holds_at(s.write(data).seek(s.pos), data),
{
    reveal(overwrite);
    assert(s.write(data).seek(s.pos).peek(data.len()) =~= data);
}

/// The parts of a container that a stream holds, each at its place.
proof fn lemma_container_parts(start: Stream, p: ProjectView)
    requires
        holds_at(start, encode_container(p, start.pos as int)),
    ensures
        start.available() >= 1,
        start.peek(1)[0] == MAGIC,
        holds_at(start.skip(1), u32_le(ASSET_ENCODING_VERSION)),
        holds_at(
            start.skip(5),
            field(start.pos + HEADER_LEN + encode_files(p.files, string_table(p)).len()),
        ),
        holds_at(start.skip(9), field(p.files.len() as int)),
        holds_at(start.skip(13), encode_files(p.files, string_table(p))),
        holds_at(
            start.skip(13 + encode_files(p.files, string_table(p)).len()),
            encode_string_table(string_table(p)),
        ),
{
    let table = string_table(p);
    let records = encode_files(p.files, table);
    let table_offset = start.pos + HEADER_LEN + records.len();
    let header = encode_header(table_offset, p.files.len() as int);
    let magic = seq![MAGIC];
    let version = u32_le(ASSET_ENCODING_VERSION);
    lemma_u32_le_roundtrip(0);
    lemma_holds_split(start, header + records, encode_string_table(table));
    lemma_holds_split(start, header, records);
    lemma_holds_split(start, magic + version + field(table_offset), field(p.files.len() as int));
    lemma_holds_split(start, magic + version, field(table_offset));
    lemma_holds_split(start, magic, version);
    assert(start.peek(1)[0] == magic[0]);
}

/// A stream that holds the container of a project at its position is read
/// as that project, provided that the project's numbers fit their fields.
pub proof fn lemma_parse_container(start: Stream, p: ProjectView)
    requires
        fits(p, start.pos as int),
        holds_at(start, encode_container(p, start.pos as int)),
    ensures
        parse_container(start) == Ok::<(ProjectView, Stream), AssetError>(
            (p, start.skip(HEADER_LEN as nat + encode_files(p.files, string_table(p)).len())),
        ),
{
    let table = string_table(p);
    let records = encode_files(p.files, table);
    let table_offset = start.pos + HEADER_LEN + records.len();
    lemma_container_parts(start, p);
    lemma_table_fits(p, start.pos as int);
    lemma_files_len(p.files, table);
    assert(field(ASSET_ENCODING_VERSION as int) == u32_le(ASSET_ENCODING_VERSION));
    lemma_parse_field(start.skip(1), ASSET_ENCODING_VERSION as int);
    lemma_parse_field(start.skip(5), table_offset);
    lemma_parse_field(start.skip(9), p.files.len() as int);
    let after_header = start.skip(13);
    assert(start.skip(1).skip(4) == start.skip(5));
    assert(start.skip(5).skip(4) == start.skip(9));
    assert(start.skip(9).skip(4) == after_header);
    assert(after_header.seek(table_offset as nat) == start.skip(13 + records.len()));
    lemma_parse_string_table(start.skip(13 + records.len()), table);
    lemma_parse_files(after_header, p.files, table);
    assert(after_header.skip(records.len()) == start.skip(HEADER_LEN as nat + records.len()));
}

/// Round trip: a project written at the position of any stream and read from
/// there is read back unchanged, files, nodes and annotations in their order,
/// provided that its numbers fit their fields. The read ends behind the last
/// file record.
pub proof fn lemma_decode_encode(p: ProjectView, s: Stream)
    requires
        fits(p, s.pos as int),
    ensures
        parse_container(s.write(encode_container(p, s.pos as int)).seek(s.pos)) == Ok::<
            (ProjectView, Stream),
            AssetError,
        >(
            (
                p,
                s.write(encode_container(p, s.pos as int)).seek(
                    s.pos + HEADER_LEN as nat + encode_files(p.files, string_table(p)).len(),
                ),
            ),
        ),
{
    let container = encode_container(p, s.pos as int);
    let written = s.write(container);
    let start = written.seek(s.pos);
    let consumed = HEADER_LEN as nat + encode_files(p.files, string_table(p)).len();
    assert(start.pos == s.pos);
    assert(start.skip(consumed) == written.seek(s.pos + consumed));
    lemma_write_holds(s, container);
    lemma_parse_container(start, p);
}

/// Order: in what is read back, every file stands where it stood, and so
/// does every node and every annotation within its file.
pub proof fn lemma_order_preserved(p: ProjectView, s: Stream)
    requires
        fits(p, s.pos as int),
    ensures
        parse_container(s.write(encode_container(p, s.pos as int)).seek(s.pos)) matches Ok((q, _))
            && q.files.len() == p.files.len() && forall|i: int|
            0 <= i < p.files.len() ==> {
                &&& (#[trigger] q.files[i]).path == p.files[i].path
                &&& q.files[i].content == p.files[i].content
                &&& q.files[i].tree.len() == p.files[i].tree.len()
                &&& q.files[i].errors.len() == p.files[i].errors.len()
                &&& forall|j: int|
                    0 <= j < p.files[i].tree.len() ==> #[trigger] q.files[i].tree[j]
                        == p.files[i].tree[j]
                &&& forall|j: int|
                    0 <= j < p.files[i].errors.len() ==> #[trigger] q.files[i].errors[j]
                        == p.files[i].errors[j]
            },
{
    lemma_decode_encode(p, s);
}

/// Magic gate: a stream whose first byte is not the magic byte is refused
/// with `InvalidMagic`, whatever follows that byte.
pub proof fn lemma_magic_gate(s: Stream)
    requires
        s.available() >= 1,
        s.peek(1)[0] != MAGIC,
    ensures
        parse_container(s) == Err::<(ProjectView, Stream), AssetError>(
            AssetError::InvalidMagic { expected: MAGIC, got: s.peek(1)[0] },
        ),
{
}

/// Version gate: a stream that begins with the magic byte and a version
/// other than the one understood is refused with `VersionMismatch`, whatever
/// follows the version.
pub proof fn lemma_version_gate(s: Stream)
    requires
        s.available() >= 5,
        s.peek(1)[0] == MAGIC,
        u32_from_le(s.skip(1).peek(4)) != ASSET_ENCODING_VERSION,
    ensures
        parse_container(s) == Err::<(ProjectView, Stream), AssetError>(
            AssetError::VersionMismatch {
                expected: ASSET_ENCODING_VERSION,
                got: u32_from_le(s.skip(1).peek(4)),
            },
        ),
{
}

/// The length of a container, and its first byte.
proof fn lemma_container_len(p: ProjectView, base: int)
    ensures
        encode_container(p, base).len() == HEADER_LEN + encode_files(
            p.files,
            string_table(p),
        ).len() + encode_string_table(string_table(p)).len(),
        encode_string_table(string_table(p)).len() >= 4,
        encode_container(p, base)[0] == MAGIC,
{
    lemma_u32_le_roundtrip(0);
}

/// A container whose version field was overwritten with another version is
/// refused with `VersionMismatch`, which names the version found.
pub proof fn lemma_tampered_version(p: ProjectView, version: u32)
    requires
        version != ASSET_ENCODING_VERSION,
    ensures
        parse_container(
            Stream { bytes: overwrite(encode_container(p, 0), 1, u32_le(version)), pos: 0 },
        ) == Err::<(ProjectView, Stream), AssetError>(
            AssetError::VersionMismatch { expected: ASSET_ENCODING_VERSION, got: version },
        ),
{
    let container = encode_container(p, 0);
    let s = Stream { bytes: overwrite(container, 1, u32_le(version)), pos: 0 };
    lemma_container_len(p, 0);
    lemma_u32_le_roundtrip(version);
    reveal(overwrite);
    assert(s.peek(1)[0] == MAGIC);
    assert(s.skip(1).peek(4) =~= u32_le(version));
    lemma_version_gate(s);
}

/// A stream with a good magic byte and version whose header places the
/// string table where fewer than four bytes are left, or beyond the end, is
/// refused with `Truncated`.
pub proof fn lemma_table_offset_beyond_end(s: Stream)
    requires
        s.available() >= 13,
        s.peek(1)[0] == MAGIC,
        u32_from_le(s.skip(1).peek(4)) == ASSET_ENCODING_VERSION,
        u32_from_le(s.skip(5).peek(4)) + 4 > s.bytes.len(),
    ensures
        parse_container(s) == Err::<(ProjectView, Stream), AssetError>(AssetError::Truncated),
{
    assert(s.skip(1).skip(4) == s.skip(5));
    assert(s.skip(5).skip(4) == s.skip(9));
}

/// The stream with everything after its first `n` bytes cut off.
pub open spec fn cut(s: Stream, n: nat) -> Stream {
    Stream { bytes: s.bytes.take(n as int), pos: s.pos }
}

proof fn lemma_cut_u32(s: Stream, n: nat)
    requires
        n <= s.bytes.len(),
        parse_u32(s) is Ok,
    ensures
        parse_u32(cut(s, n)) == if s.pos + 4 <= n {
            Ok::<(u32, Stream), AssetError>((parse_u32(s).unwrap().0, cut(s.skip(4), n)))
        } else {
            Err::<(u32, Stream), AssetError>(AssetError::Truncated)
        },
{
    if s.pos + 4 <= n {
        assert(cut(s, n).peek(4) =~= s.peek(4));
    }
}

proof fn lemma_cut_string(s: Stream, n: nat)
    requires
        n <= s.bytes.len(),
        parse_string(s) is Ok,
    ensures
        parse_string(s).unwrap().1.bytes == s.bytes,
        parse_string(s).unwrap().1.pos >= s.pos + 4,
        parse_string(cut(s, n)) == if parse_string(s).unwrap().1.pos <= n {
            Ok::<(Seq<char>, Stream), AssetError>(
                (parse_string(s).unwrap().0, cut(parse_string(s).unwrap().1, n)),
            )
        } else {
            Err::<(Seq<char>, Stream), AssetError>(AssetError::Truncated)
        },
{
    lemma_cut_u32(s, n);
    let len = parse_u32(s).unwrap().0;
    if s.pos + 4 + len <= n {
        assert(cut(s.skip(4), n).peek(len as nat) =~= s.skip(4).peek(len as nat));
    }
}

proof fn lemma_cut_strings(s: Stream, n: nat, count: nat)
    requires
        n <= s.bytes.len(),
        s.pos <= n,
        parse_strings(s, count) is Ok,
    ensures
        parse_strings(s, count).unwrap().1.bytes == s.bytes,
        parse_strings(s, count).unwrap().1.pos >= s.pos,
        parse_strings(cut(s, n), count) == if parse_strings(s, count).unwrap().1.pos <= n {
            Ok::<(Seq<Seq<char>>, Stream), AssetError>(
                (parse_strings(s, count).unwrap().0, cut(parse_strings(s, count).unwrap().1, n)),
            )
        } else {
            Err::<(Seq<Seq<char>>, Stream), AssetError>(AssetError::Truncated)
        },
    decreases count,
{
    if count > 0 {
        lemma_cut_string(s, n);
        let next = parse_string(s).unwrap().1;
        if next.pos <= n {
            lemma_cut_strings(next, n, (count - 1) as nat);
        } else {
            lemma_cut_strings(next, next.bytes.len(), (count - 1) as nat);
        }
    }
}

proof fn lemma_cut_string_table(s: Stream, n: nat)
    requires
        n <= s.bytes.len(),
        parse_string_table(s) is Ok,
        parse_string_table(s).unwrap().1.pos > n,
    ensures
        parse_string_table(cut(s, n)) == Err::<(Seq<Seq<char>>, Stream), AssetError>(
            AssetError::Truncated,
        ),
{
    lemma_cut_u32(s, n);
    if s.pos + 4 <= n {
        lemma_cut_strings(s.skip(4), n, parse_u32(s).unwrap().0 as nat);
    }
}

proof fn lemma_cut_header(full: Stream, n: nat, table_offset: u32, file_count: u32)
    requires
        n <= full.bytes.len(),
        full.available() >= 1,
        full.peek(1)[0] == MAGIC,
        parse_u32(full.skip(1)) == Ok::<(u32, Stream), AssetError>(
            (ASSET_ENCODING_VERSION, full.skip(5)),
        ),
        parse_u32(full.skip(5)) == Ok::<(u32, Stream), AssetError>((table_offset, full.skip(9))),
        parse_u32(full.skip(9)) == Ok::<(u32, Stream), AssetError>((file_count, full.skip(13))),
        parse_string_table(cut(full.seek(table_offset as nat), n)) == Err::<
            (Seq<Seq<char>>, Stream),
            AssetError,
        >(AssetError::Truncated),
    ensures
        parse_container(cut(full, n)) == Err::<(ProjectView, Stream), AssetError>(
            AssetError::Truncated,
        ),
{
    let short = cut(full, n);
    if n >= full.pos + 1 {
        assert(short.peek(1) =~= full.peek(1));
        lemma_cut_u32(full.skip(1), n);
        assert(short.skip(1) == cut(full.skip(1), n));
        assert(cut(full.skip(1).skip(4), n) == cut(full.skip(5), n));
        if n >= full.pos + 5 {
            lemma_cut_u32(full.skip(5), n);
            assert(cut(full.skip(5).skip(4), n) == cut(full.skip(9), n));
            if n >= full.pos + 9 {
                lemma_cut_u32(full.skip(9), n);
                assert(cut(full.skip(9).skip(4), n) == cut(full.skip(13), n));
                assert(cut(full.skip(13), n).seek(table_offset as nat) == cut(
                    full.seek(table_offset as nat),
                    n,
                ));
            }
        }
    }
}

/// Truncation: of a container that was cut short, by its last byte or by
/// more, nothing is read: the decode fails with `Truncated`.
pub proof fn lemma_truncated_container(p: ProjectView, n: nat)
    requires
        fits(p, 0),
        n < encode_container(p, 0).len(),
    ensures
        parse_container(Stream { bytes: encode_container(p, 0).take(n as int), pos: 0 }) == Err::<
            (ProjectView, Stream),
            AssetError,
        >(AssetError::Truncated),
{
    let container = encode_container(p, 0);
    let table = string_table(p);
    let records = encode_files(p.files, table);
    let table_offset = (HEADER_LEN + records.len()) as nat;
    let full = Stream { bytes: container, pos: 0 };
    assert(holds_at(full, container)) by {
        assert(full.peek(container.len()) =~= container);
    }
    lemma_container_len(p, 0);
    lemma_container_parts(full, p);
    lemma_table_fits(p, 0);
    lemma_files_len(p.files, table);
    assert(field(ASSET_ENCODING_VERSION as int) == u32_le(ASSET_ENCODING_VERSION));
    lemma_parse_field(full.skip(1), ASSET_ENCODING_VERSION as int);
    lemma_parse_field(full.skip(5), table_offset as int);
    lemma_parse_field(full.skip(9), p.files.len() as int);
    assert(full.skip(1).skip(4) == full.skip(5));
    assert(full.skip(5).skip(4) == full.skip(9));
    assert(full.skip(9).skip(4) == full.skip(13));
    assert(full.seek(table_offset) == full.skip(table_offset));
    lemma_parse_string_table(full.skip(table_offset), table);
    lemma_cut_string_table(full.seek(table_offset), n);
    lemma_cut_header(full, n, table_offset as u32, p.files.len() as u32);
}

/// Truncation of the last byte: a container without its final byte is
/// refused with `Truncated`.
pub proof fn lemma_last_byte_removed(p: ProjectView)
    requires
        fits(p, 0),
    ensures
        parse_container(Stream { bytes: encode_container(p, 0).drop_last(), pos: 0 }) == Err::<
            (ProjectView, Stream),
            AssetError,
        >(AssetError::Truncated),
{
    lemma_container_len(p, 0);
    lemma_truncated_container(p, (encode_container(p, 0).len() - 1) as nat);
}

/// A container whose table position was overwritten with one that leaves
/// fewer than four bytes, or lies beyond the end, is refused with `Truncated`.
pub proof fn lemma_tampered_table_offset(p: ProjectView, offset: u32)
    requires
        offset + 4 > encode_container(p, 0).len(),
    ensures
        parse_container(
            Stream { bytes: overwrite(encode_container(p, 0), 5, u32_le(offset)), pos: 0 },
        ) == Err::<(ProjectView, Stream), AssetError>(AssetError::Truncated),
{
    let container = encode_container(p, 0);
    let s = Stream { bytes: overwrite(container, 5, u32_le(offset)), pos: 0 };
    let full = Stream { bytes: container, pos: 0 };
    lemma_container_len(p, 0);
    lemma_u32_le_roundtrip(offset);
    lemma_u32_le_roundtrip(ASSET_ENCODING_VERSION);
    assert(holds_at(full, container)) by {
        assert(full.peek(container.len()) =~= container);
    }
    lemma_container_parts(full, p);
    reveal(overwrite);
    assert(s.peek(1)[0] == MAGIC);
    assert(s.skip(1).peek(4) =~= full.skip(1).peek(4));
    assert(s.skip(5).peek(4) =~= u32_le(offset));
    lemma_table_offset_beyond_end(s);
}

/// Where in the strings of the files the content of file `i` stands.
spec fn content_index(files: Seq<FileView>, i: int) -> int
    decreases i,
{
    if i <= 0 {
        1
    } else {
        file_strings(files[0]).len() + content_index(files.skip(1), i - 1)
    }
}

proof fn lemma_content_index(files: Seq<FileView>, i: int)
    requires
        0 <= i < files.len(),
    ensures
        1 <= content_index(files, i) < files_strings(files).len(),
        files_strings(files)[content_index(files, i)] == files[i].content,
    decreases i,
{
    let first = file_strings(files[0]);
    assert(first[1] == files[0].content);
    if i > 0 {
        lemma_content_index(files.skip(1), i - 1);
    }
}

proof fn lemma_content_index_grows(files: Seq<FileView>, i: int, j: int)
    requires
        0 <= i < j < files.len(),
    ensures
        content_index(files, i) < content_index(files, j),
    decreases i,
{
    lemma_content_index(files.skip(1), j - 1);
    if i > 0 {
        lemma_content_index_grows(files.skip(1), i - 1, j - 1);
    }
}

/// Adding a string that the table holds already costs no entry.
proof fn lemma_intern_all_known(table: Seq<Seq<char>>, strings: Seq<Seq<char>>, j: int)
    requires
        0 <= j < strings.len(),
        table.contains(strings[j]),
    ensures
        intern_all(table, strings).len() < table.len() + strings.len(),
    decreases strings.len(),
{
    let next = intern(table, strings[0]);
    let rest = strings.skip(1);
    if j == 0 {
        lemma_intern_all_holds(next, rest);
    } else {
        let at = table.index_of(strings[j]);
        assert(next[at] == strings[j]);
        assert(rest[j - 1] == strings[j]);
        lemma_intern_all_known(next, rest, j - 1);
    }
}

/// Adding a list in which a string occurs twice gives fewer entries than
/// the list has strings.
proof fn lemma_intern_all_repeated(table: Seq<Seq<char>>, strings: Seq<Seq<char>>, a: int, b: int)
    requires
        0 <= a < b < strings.len(),
        strings[a] == strings[b],
    ensures
        intern_all(table, strings).len() < table.len() + strings.len(),
    decreases strings.len(),
{
    let next = intern(table, strings[0]);
    let rest = strings.skip(1);
    if a == 0 {
        assert(next.contains(strings[0])) by {
            if !table.contains(strings[0]) {
                assert(next[table.len() as int] == strings[0]);
            }
        }
        assert(rest[b - 1] == strings[b]);
        lemma_intern_all_known(next, rest, b - 1);
    } else {
        assert(rest[a - 1] == strings[a]);
        assert(rest[b - 1] == strings[b]);
        lemma_intern_all_repeated(next, rest, a - 1, b - 1);
    }
}

/// Deduplication: where two files have the same content, the string table
/// has fewer entries than the project has strings.
pub proof fn lemma_shared_content_stored_once(p: ProjectView, i: int, j: int)
    requires
        0 <= i < j < p.files.len(),
        p.files[i].content == p.files[j].content,
    ensures
        string_table(p).len() < files_strings(p.files).len(),
{
    lemma_content_index(p.files, i);
    lemma_content_index(p.files, j);
    lemma_content_index_grows(p.files, i, j);
    lemma_intern_all_repeated(
        Seq::empty(),
        files_strings(p.files),
        content_index(p.files, i),
        content_index(p.files, j),
    );
}

/// The table never has more entries than the project has strings, and no
/// string stands in it twice.
pub proof fn lemma_string_table_is_unique(p: ProjectView)
    ensures
        string_table(p).len() <= files_strings(p.files).len(),
        string_table(p).no_duplicates(),
        holds_all(string_table(p), files_strings(p.files)),
{
    lemma_intern_all_holds(Seq::empty(), files_strings(p.files));
}

} // verus!

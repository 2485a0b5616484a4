//! Writing a project into a container and reading it back.

use crate::asset::{
    errors_view, files_view, tree_view, Annotation, File, FileView, Node, Project, ProjectView,
    Range, SpanView,
};
use crate::error::AssetError;
use crate::layout::{
    encode_container, encode_file, encode_files, encode_header, encode_range, encode_span,
    encode_spans, encode_string_table, file_strings, files_strings, holds_all, intern, intern_all,
    lemma_holds_each_file, lemma_intern_all_concat, lemma_intern_all_holds, span_texts,
    string_table, ASSET_ENCODING_VERSION, HEADER_LEN, MAGIC, TABLE_OFFSET_POS,
};
use crate::parse::{
    parse_container, parse_counted_spans, parse_file, parse_files, parse_span, parse_spans,
};
use crate::stream::{lemma_patch, lemma_write_write, overwrite, ByteCursor};
use crate::string_table::{prepend, StringTable, StringTableBuilder};
use crate::wire::{field, low_u32, read_u32, u32_le, write_u32};
use vstd::prelude::*;

verus! {

/// Registers the type of every node.
fn add_node_types(table: &mut StringTableBuilder, tree: &Vec<Node>)
    requires
        old(table).wf(),
    ensures
        final(table).wf(),
        final(table).strings() == intern_all(old(table).strings(), span_texts(tree_view(tree@))),
{
    let ghost texts = span_texts(tree_view(tree@));
    assert(texts.skip(0) =~= texts);
    let mut i: usize = 0;
    while i < tree.len()
        invariant
            i <= tree@.len(),
            table.wf(),
            texts == span_texts(tree_view(tree@)),
            intern_all(table.strings(), texts.skip(i as int)) == intern_all(
                old(table).strings(),
                texts,
            ),
        decreases tree@.len() - i,
    {
        assert(texts.skip(i as int)[0] == tree@[i as int].node_type@);
        assert(texts.skip(i as int).skip(1) =~= texts.skip(i + 1));
        table.add(tree[i].node_type.as_str());
        i += 1;
    }
}

/// Registers the text of every annotation.
fn add_annotation_texts(table: &mut StringTableBuilder, errors: &Vec<Annotation>)
    requires
        old(table).wf(),
    ensures
        final(table).wf(),
        final(table).strings() == intern_all(
            old(table).strings(),
            span_texts(errors_view(errors@)),
        ),
{
    let ghost texts = span_texts(errors_view(errors@));
    assert(texts.skip(0) =~= texts);
    let mut i: usize = 0;
    while i < errors.len()
        invariant
            i <= errors@.len(),
            table.wf(),
            texts == span_texts(errors_view(errors@)),
            intern_all(table.strings(), texts.skip(i as int)) == intern_all(
                old(table).strings(),
                texts,
            ),
        decreases errors@.len() - i,
    {
        assert(texts.skip(i as int)[0] == errors@[i as int].text@);
        assert(texts.skip(i as int).skip(1) =~= texts.skip(i + 1));
        table.add(errors[i].text.as_str());
        i += 1;
    }
}

/// Registers the strings of a file: path, content, node types, annotation texts.
fn add_file_strings(table: &mut StringTableBuilder, file: &File)
    requires
        old(table).wf(),
    ensures
        final(table).wf(),
        final(table).strings() == intern_all(old(table).strings(), file_strings(file@)),
{
    let ghost head = seq![file@.path, file@.content];
    let ghost types = span_texts(file@.tree);
    let ghost texts = span_texts(file@.errors);
    proof {
        assert(head.skip(1) =~= seq![file@.content]);
        assert(head.skip(1).skip(1) =~= Seq::<Seq<char>>::empty());
        assert(intern_all(old(table).strings(), head) == intern(
            intern(old(table).strings(), file@.path),
            file@.content,
        )) by {
            reveal_with_fuel(intern_all, 3);
        }
        lemma_intern_all_concat(old(table).strings(), head + types, texts);
        lemma_intern_all_concat(old(table).strings(), head, types);
    }
    table.add(file.path.as_str());
    table.add(file.content.as_str());
    add_node_types(table, &file.tree);
    add_annotation_texts(table, &file.errors);
}

/// The string table of a project: every string of every file, in file order.
fn collect_strings(project: &Project) -> (table: StringTableBuilder)
    ensures
        table.wf(),
        table.strings() == string_table(project@),
{
    let mut table = StringTableBuilder::new();
    let ghost files = project@.files;
    assert(files.skip(0) =~= files);
    let mut i: usize = 0;
    while i < project.files.len()
        invariant
            i <= project.files@.len(),
            table.wf(),
            files == project@.files,
            intern_all(table.strings(), files_strings(files.skip(i as int))) == string_table(
                project@,
            ),
        decreases project.files@.len() - i,
    {
        proof {
            assert(files.skip(i as int)[0] == project.files@[i as int]@);
            assert(files.skip(i as int).skip(1) =~= files.skip(i + 1));
            lemma_intern_all_concat(
                table.strings(),
                file_strings(files[i as int]),
                files_strings(files.skip(i + 1)),
            );
        }
        add_file_strings(&mut table, &project.files[i]);
        i += 1;
    }
    table
}

/// Writes a node or an annotation: the two offsets of its range, then the
/// index of its string.
fn write_span(w: &mut ByteCursor, range: &Range, text: &str, table: &StringTableBuilder) -> (r:
    Result<(), AssetError>)
    requires
        table.wf(),
    ensures
        match r {
            Ok(_) => {
                &&& table.strings().contains(text@)
                &&& final(w)@ == old(w)@.write(
                    encode_span(SpanView { range: range@, text: text@ }, table.strings()),
                )
            },
            Err(e) => {
                &&& !table.strings().contains(text@)
                &&& e matches AssetError::StringNotFound { text: missing }
                &&& missing@ == text@
            },
        },
{
    write_u32(w, low_u32(range.offset));
    write_u32(w, low_u32(range.end_offset));
    let index = table.idx(text)?;
    write_u32(w, low_u32(index));
    proof {
        lemma_write_write(old(w)@, field(range.offset as int), field(range.end_offset as int));
        lemma_write_write(old(w)@, encode_range(range@), field(index as int));
    }
    Ok(())
}

/// Writes the number of nodes, then the nodes.
fn write_nodes(w: &mut ByteCursor, tree: &Vec<Node>, table: &StringTableBuilder) -> (r: Result<
    (),
    AssetError,
>)
    requires
        table.wf(),
        holds_all(table.strings(), span_texts(tree_view(tree@))),
    ensures
        r is Ok,
        final(w)@ == old(w)@.write(
            field(tree@.len() as int) + encode_spans(tree_view(tree@), table.strings()),
        ),
{
    write_u32(w, low_u32(tree.len()));
    let ghost spans = tree_view(tree@);
    let ghost mut written = field(tree@.len() as int);
    assert(spans.skip(0) =~= spans);
    let mut i: usize = 0;
    while i < tree.len()
        invariant
            i <= tree@.len(),
            table.wf(),
            spans == tree_view(tree@),
            holds_all(table.strings(), span_texts(spans)),
            w@ == old(w)@.write(written),
            written + encode_spans(spans.skip(i as int), table.strings()) == field(
                tree@.len() as int,
            ) + encode_spans(spans, table.strings()),
        decreases tree@.len() - i,
    {
        let node = &tree[i];
        proof {
            assert(spans.skip(i as int)[0] == node@);
            assert(spans.skip(i as int).skip(1) =~= spans.skip(i + 1));
            assert(span_texts(spans)[i as int] == node.node_type@);
        }
        write_span(w, &node.range, node.node_type.as_str(), table)?;
        proof {
            lemma_write_write(old(w)@, written, encode_span(node@, table.strings()));
            assert(written + encode_span(node@, table.strings()) + encode_spans(
                spans.skip(i + 1),
                table.strings(),
            ) =~= written + encode_spans(spans.skip(i as int), table.strings()));
            written = written + encode_span(node@, table.strings());
        }
        i += 1;
    }
    assert(written + Seq::<u8>::empty() =~= written);
    Ok(())
}

/// Writes the number of annotations, then the annotations.
fn write_annotations(w: &mut ByteCursor, errors: &Vec<Annotation>, table: &StringTableBuilder) -> (r:
    Result<(), AssetError>)
    requires
        table.wf(),
        holds_all(table.strings(), span_texts(errors_view(errors@))),
    ensures
        r is Ok,
        final(w)@ == old(w)@.write(
            field(errors@.len() as int) + encode_spans(errors_view(errors@), table.strings()),
        ),
{
    write_u32(w, low_u32(errors.len()));
    let ghost spans = errors_view(errors@);
    let ghost mut written = field(errors@.len() as int);
    assert(spans.skip(0) =~= spans);
    let mut i: usize = 0;
    while i < errors.len()
        invariant
            i <= errors@.len(),
            table.wf(),
            spans == errors_view(errors@),
            holds_all(table.strings(), span_texts(spans)),
            w@ == old(w)@.write(written),
            written + encode_spans(spans.skip(i as int), table.strings()) == field(
                errors@.len() as int,
            ) + encode_spans(spans, table.strings()),
        decreases errors@.len() - i,
    {
        let annotation = &errors[i];
        proof {
            assert(spans.skip(i as int)[0] == annotation@);
            assert(spans.skip(i as int).skip(1) =~= spans.skip(i + 1));
            assert(span_texts(spans)[i as int] == annotation.text@);
        }
        write_span(w, &annotation.range, annotation.text.as_str(), table)?;
        proof {
            lemma_write_write(old(w)@, written, encode_span(annotation@, table.strings()));
            assert(written + encode_span(annotation@, table.strings()) + encode_spans(
                spans.skip(i + 1),
                table.strings(),
            ) =~= written + encode_spans(spans.skip(i as int), table.strings()));
            written = written + encode_span(annotation@, table.strings());
        }
        i += 1;
    }
    assert(written + Seq::<u8>::empty() =~= written);
    Ok(())
}

/// Writes the record of a file.
fn write_file(w: &mut ByteCursor, file: &File, table: &StringTableBuilder) -> (r: Result<
    (),
    AssetError,
>)
    requires
        table.wf(),
        holds_all(table.strings(), file_strings(file@)),
    ensures
        r is Ok,
        final(w)@ == old(w)@.write(encode_file(file@, table.strings())),
{
    let ghost strings = file_strings(file@);
    let ghost types = span_texts(file@.tree);
    let ghost texts = span_texts(file@.errors);
    proof {
        assert(strings[0] == file@.path);
        assert(strings[1] == file@.content);
        assert forall|k: int| 0 <= k < types.len() implies table.strings().contains(
            #[trigger] types[k],
        ) by {
            assert(strings[2 + k] == types[k]);
        }
        assert forall|k: int| 0 <= k < texts.len() implies table.strings().contains(
            #[trigger] texts[k],
        ) by {
            assert(strings[2 + types.len() + k] == texts[k]);
        }
    }
    let path_index = table.idx(file.path.as_str())?;
    write_u32(w, low_u32(path_index));
    let content_index = table.idx(file.content.as_str())?;
    write_u32(w, low_u32(content_index));
    let ghost indices = field(path_index as int) + field(content_index as int);
    let ghost nodes = field(file@.tree.len() as int) + encode_spans(file@.tree, table.strings());
    let ghost annotations = field(file@.errors.len() as int) + encode_spans(
        file@.errors,
        table.strings(),
    );
    write_nodes(w, &file.tree, table)?;
    write_annotations(w, &file.errors, table)?;
    proof {
        lemma_write_write(old(w)@, field(path_index as int), field(content_index as int));
        lemma_write_write(old(w)@, indices, nodes);
        lemma_write_write(old(w)@, indices + nodes, annotations);
        assert(indices + nodes + annotations =~= encode_file(file@, table.strings()));
    }
    Ok(())
}

/// Reads a node or an annotation as its range and its string.
fn read_span(r: &mut ByteCursor, table: &StringTable) -> (res: Result<(Range, String), AssetError>)
    ensures
        final(r)@.bytes == old(r)@.bytes,
        match parse_span(old(r)@, table@) {
            Ok((span, s)) => {
                &&& res matches Ok((range, text))
                &&& range@ == span.range
                &&& text@ == span.text
                &&& final(r)@ == s
            },
            Err(e) => res matches Err(err) && err == e,
        },
{
    let offset = read_u32(r)? as usize;
    let end_offset = read_u32(r)? as usize;
    let index = read_u32(r)? as usize;
    let text = table.get(index)?.to_owned();
    Ok((Range { offset, end_offset }, text))
}

/// Reads the number of nodes, then the nodes.
fn read_nodes(r: &mut ByteCursor, table: &StringTable) -> (res: Result<Vec<Node>, AssetError>)
    ensures
        final(r)@.bytes == old(r)@.bytes,
        match parse_counted_spans(old(r)@, table@) {
            Ok((spans, s)) => res matches Ok(tree) && tree_view(tree@) == spans && final(r)@ == s,
            Err(e) => res matches Err(err) && err == e,
        },
{
    let count = read_u32(r)?;
    let ghost start = r@;
    let mut tree: Vec<Node> = Vec::new();
    let mut i: u32 = 0;
    assert(tree_view(tree@) =~= Seq::<SpanView>::empty());
    while i < count
        invariant
            i <= count,
            r@.bytes == old(r)@.bytes,
            parse_counted_spans(old(r)@, table@) == parse_spans(start, table@, count as nat),
            parse_spans(start, table@, count as nat) == prepend(
                tree_view(tree@),
                parse_spans(r@, table@, (count - i) as nat),
            ),
        decreases count - i,
    {
        let (range, node_type) = read_span(r, table)?;
        let node = Node { range, node_type };
        proof {
            assert(tree_view(tree@.push(node)) =~= tree_view(tree@) + seq![node@]);
            if let Ok((items, end)) = parse_spans(r@, table@, (count - i - 1) as nat) {
                assert(tree_view(tree@) + (seq![node@] + items) =~= tree_view(tree@.push(node))
                    + items);
            }
        }
        tree.push(node);
        i += 1;
    }
    assert(tree_view(tree@) + Seq::<SpanView>::empty() =~= tree_view(tree@));
    Ok(tree)
}

/// Reads the number of annotations, then the annotations.
fn read_annotations(r: &mut ByteCursor, table: &StringTable) -> (res: Result<
    Vec<Annotation>,
    AssetError,
>)
    ensures
        final(r)@.bytes == old(r)@.bytes,
        match parse_counted_spans(old(r)@, table@) {
            Ok((spans, s)) => res matches Ok(errors) && errors_view(errors@) == spans && final(r)@
                == s,
            Err(e) => res matches Err(err) && err == e,
        },
{
    let count = read_u32(r)?;
    let ghost start = r@;
    let mut errors: Vec<Annotation> = Vec::new();
    let mut i: u32 = 0;
    assert(errors_view(errors@) =~= Seq::<SpanView>::empty());
    while i < count
        invariant
            i <= count,
            r@.bytes == old(r)@.bytes,
            parse_counted_spans(old(r)@, table@) == parse_spans(start, table@, count as nat),
            parse_spans(start, table@, count as nat) == prepend(
                errors_view(errors@),
                parse_spans(r@, table@, (count - i) as nat),
            ),
        decreases count - i,
    {
        let (range, text) = read_span(r, table)?;
        let annotation = Annotation { range, text };
        proof {
            assert(errors_view(errors@.push(annotation)) =~= errors_view(errors@)
                + seq![annotation@]);
            if let Ok((items, end)) = parse_spans(r@, table@, (count - i - 1) as nat) {
                assert(errors_view(errors@) + (seq![annotation@] + items) =~= errors_view(
                    errors@.push(annotation),
                ) + items);
            }
        }
        errors.push(annotation);
        i += 1;
    }
    assert(errors_view(errors@) + Seq::<SpanView>::empty() =~= errors_view(errors@));
    Ok(errors)
}

/// Reads the record of a file.
fn read_file(r: &mut ByteCursor, table: &StringTable) -> (res: Result<File, AssetError>)
    ensures
        final(r)@.bytes == old(r)@.bytes,
        match parse_file(old(r)@, table@) {
            Ok((file, s)) => res matches Ok(f) && f@ == file && final(r)@ == s,
            Err(e) => res matches Err(err) && err == e,
        },
{
    let path_index = read_u32(r)? as usize;
    let content_index = read_u32(r)? as usize;
    let tree = read_nodes(r, table)?;
    let errors = read_annotations(r, table)?;
    let path = table.get(path_index)?.to_owned();
    let content = table.get(content_index)?.to_owned();
    Ok(File { path, content, tree, errors })
}

impl Project {
    /// Writes the container of this project at the position of `writer` and
    /// leaves the position behind it. The strings are collected first; then
    /// come the header with a placeholder for the position of the string
    /// table, and the file records; then the placeholder is overwritten with
    /// the position that the records ended at, and the table is written there.
    pub fn encode(&self, writer: &mut ByteCursor) -> (r: Result<(), AssetError>)
        ensures
            r is Ok,
            final(writer)@ == old(writer)@.write(
                encode_container(self@, old(writer)@.pos as int),
            ),
    {
        let string_table = collect_strings(self);
        let ghost table = string_table.strings();
        let ghost files = self@.files;
        let ghost base = old(writer)@.pos as int;
        proof {
            lemma_intern_all_holds(Seq::empty(), files_strings(files));
        }
        writer.write_all([MAGIC].as_slice());
        write_u32(writer, ASSET_ENCODING_VERSION);
        let string_table_offset_pos = writer.position();
        write_u32(writer, 0);
        write_u32(writer, low_u32(self.files.len()));
        let ghost placeholder = encode_header(0, files.len() as int);
        let ghost mut written = placeholder;
        proof {
            assert([MAGIC]@ =~= seq![MAGIC]);
            lemma_write_write(old(writer)@, seq![MAGIC], u32_le(ASSET_ENCODING_VERSION));
            lemma_write_write(
                old(writer)@,
                seq![MAGIC] + u32_le(ASSET_ENCODING_VERSION),
                field(0),
            );
            lemma_write_write(
                old(writer)@,
                seq![MAGIC] + u32_le(ASSET_ENCODING_VERSION) + field(0),
                field(files.len() as int),
            );
            assert(files.skip(0) =~= files);
        }
        let mut i: usize = 0;
        while i < self.files.len()
            invariant
                i <= self.files@.len(),
                string_table.wf(),
                table == string_table.strings(),
                files == self@.files,
                holds_all(table, files_strings(files)),
                writer@ == old(writer)@.write(written),
                written + encode_files(files.skip(i as int), table) == placeholder + encode_files(
                    files,
                    table,
                ),
            decreases self.files@.len() - i,
        {
            let file = &self.files[i];
            proof {
                lemma_holds_each_file(table, files, i as int);
                assert(files.skip(i as int)[0] == file@);
                assert(files.skip(i as int).skip(1) =~= files.skip(i + 1));
            }
            write_file(writer, file, &string_table)?;
            proof {
                lemma_write_write(old(writer)@, written, encode_file(file@, table));
                assert(written + encode_file(file@, table) + encode_files(files.skip(i + 1), table)
                    =~= written + encode_files(files.skip(i as int), table));
                written = written + encode_file(file@, table);
            }
            i += 1;
        }
        let ghost records = encode_files(files, table);
        assert(written =~= placeholder + records);
        let cur = writer.position();
        let string_table_offset = low_u32(cur);
        writer.set_position(string_table_offset_pos);
        write_u32(writer, string_table_offset);
        writer.set_position(cur);
        proof {
            lemma_patch(old(writer)@, written, TABLE_OFFSET_POS as nat, field(cur as int));
            reveal(overwrite);
            assert(overwrite(written, TABLE_OFFSET_POS as nat, field(cur as int)) =~= encode_header(
                base + HEADER_LEN + records.len(),
                files.len() as int,
            ) + records);
        }
        string_table.write(writer);
        proof {
            lemma_write_write(
                old(writer)@,
                encode_header(base + HEADER_LEN + records.len(), files.len() as int) + records,
                encode_string_table(table),
            );
        }
        Ok(())
    }

    /// Reads the container that begins at the position of `reader`: checks
    /// the magic byte and the version, loads the string table from where the
    /// header says it is, then reads the file records that follow the header
    /// and leaves the position behind them. Fails with the first check that
    /// does not pass; the position is then wherever reading stopped.
    pub fn decode(reader: &mut ByteCursor) -> (res: Result<Project, AssetError>)
        ensures
            final(reader)@.bytes == old(reader)@.bytes,
            match parse_container(old(reader)@) {
                Ok((project, s)) => res matches Ok(p) && p@ == project && final(reader)@ == s,
                Err(e) => res matches Err(err) && err == e,
            },
    {
        let magic = reader.read_exact(1)?;
        if magic[0] != MAGIC {
            return Err(AssetError::InvalidMagic { expected: MAGIC, got: magic[0] });
        }
        let version = read_u32(reader)?;
        if version != ASSET_ENCODING_VERSION {
            return Err(
                AssetError::VersionMismatch { expected: ASSET_ENCODING_VERSION, got: version },
            );
        }
        let string_table_offset = read_u32(reader)?;
        let num_files = read_u32(reader)?;
        let files_start = reader.position();
        reader.set_position(string_table_offset as usize);
        let string_table = StringTable::read(reader)?;
        reader.set_position(files_start);
        let ghost start = reader@;
        let mut files: Vec<File> = Vec::new();
        let mut i: u32 = 0;
        assert(files_view(files@) =~= Seq::<FileView>::empty());
        while i < num_files
            invariant
                i <= num_files,
                reader@.bytes == old(reader)@.bytes,
                parse_container(old(reader)@) == match parse_files(
                    start,
                    string_table@,
                    num_files as nat,
                ) {
                    Ok((list, s)) => Ok((ProjectView { files: list }, s)),
                    Err(e) => Err(e),
                },
                parse_files(start, string_table@, num_files as nat) == prepend(
                    files_view(files@),
                    parse_files(reader@, string_table@, (num_files - i) as nat),
                ),
            decreases num_files - i,
        {
            let file = read_file(reader, &string_table)?;
            proof {
                assert(files_view(files@.push(file)) =~= files_view(files@) + seq![file@]);
                if let Ok((items, end)) = parse_files(
                    reader@,
                    string_table@,
                    (num_files - i - 1) as nat,
                ) {
                    assert(files_view(files@) + (seq![file@] + items) =~= files_view(
                        files@.push(file),
                    ) + items);
                }
            }
            files.push(file);
            i += 1;
        }
        assert(files_view(files@) + Seq::<FileView>::empty() =~= files_view(files@));
        Ok(Project { files })
    }
}

} // verus!

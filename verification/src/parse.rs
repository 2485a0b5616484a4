//! What a decode makes of a stream of bytes: the project it holds, or the first
//! check that fails.

use crate::asset::{FileView, ProjectView, RangeView, SpanView};
use crate::error::AssetError;
use crate::layout::{ASSET_ENCODING_VERSION, MAGIC};
use crate::stream::Stream;
use crate::wire::parse_u32;
use vstd::prelude::*;
use vstd::utf8::{decode_utf8, valid_utf8};

verus! {

/// Reads a string of the table: its length, then as many bytes, which must be
/// well-formed UTF-8.
pub open spec fn parse_string(s: Stream) -> Result<(Seq<char>, Stream), AssetError> {
    match parse_u32(s) {
        Err(e) => Err(e),
        Ok((len, s1)) => {
            if s1.available() < len {
                Err(AssetError::Truncated)
            } else if !valid_utf8(s1.peek(len as nat)) {
                Err(AssetError::InvalidUtf8)
            } else {
                Ok((decode_utf8(s1.peek(len as nat)), s1.skip(len as nat)))
            }
        },
    }
}

/// Reads `n` strings one after the other.
pub open spec fn parse_strings(s: Stream, n: nat) -> Result<(Seq<Seq<char>>, Stream), AssetError>
    decreases n,
{
    if n == 0 {
        Ok((Seq::empty(), s))
    } else {
        match parse_string(s) {
            Err(e) => Err(e),
            Ok((first, s1)) => match parse_strings(s1, (n - 1) as nat) {
                Err(e) => Err(e),
                Ok((rest, s2)) => Ok((seq![first] + rest, s2)),
            },
        }
    }
}

/// Reads a string table: the number of strings, then the strings.
pub open spec fn parse_string_table(s: Stream) -> Result<(Seq<Seq<char>>, Stream), AssetError> {
    match parse_u32(s) {
        Err(e) => Err(e),
        Ok((count, s1)) => parse_strings(s1, count as nat),
    }
}

/// The string that an index stands for.
pub open spec fn resolve(table: Seq<Seq<char>>, index: u32) -> Result<Seq<char>, AssetError> {
    if index < table.len() {
        Ok(table[index as int])
    } else {
        Err(AssetError::StringIndexOutOfRange { index: index as usize, len: table.len() as usize })
    }
}

/// Reads a node or an annotation: two offsets and the index of a string,
/// which is looked up once all three have been read.
pub open spec fn parse_span(s: Stream, table: Seq<Seq<char>>) -> Result<
    (SpanView, Stream),
    AssetError,
> {
    match parse_u32(s) {
        Err(e) => Err(e),
        Ok((offset, s1)) => match parse_u32(s1) {
            Err(e) => Err(e),
            Ok((end_offset, s2)) => match parse_u32(s2) {
                Err(e) => Err(e),
                Ok((index, s3)) => match resolve(table, index) {
                    Err(e) => Err(e),
                    Ok(text) => Ok(
                        (
                            SpanView {
                                range: RangeView {
                                    offset: offset as nat,
                                    end_offset: end_offset as nat,
                                },
                                text,
                            },
                            s3,
                        ),
                    ),
                },
            },
        },
    }
}

/// Reads `n` nodes or annotations one after the other.
pub open spec fn parse_spans(s: Stream, table: Seq<Seq<char>>, n: nat) -> Result<
    (Seq<SpanView>, Stream),
    AssetError,
>
    decreases n,
{
    if n == 0 {
        Ok((Seq::empty(), s))
    } else {
        match parse_span(s, table) {
            Err(e) => Err(e),
            Ok((first, s1)) => match parse_spans(s1, table, (n - 1) as nat) {
                Err(e) => Err(e),
                Ok((rest, s2)) => Ok((seq![first] + rest, s2)),
            },
        }
    }
}

/// Reads `n` counted nodes or annotations.
pub open spec fn parse_counted_spans(s: Stream, table: Seq<Seq<char>>) -> Result<
    (Seq<SpanView>, Stream),
    AssetError,
> {
    match parse_u32(s) {
        Err(e) => Err(e),
        Ok((count, s1)) => parse_spans(s1, table, count as nat),
    }
}

/// Reads the record of a file. The indices of path and content are looked up
/// last, after the nodes and annotations have been read.
pub open spec fn parse_file(s: Stream, table: Seq<Seq<char>>) -> Result<
    (FileView, Stream),
    AssetError,
> {
    match parse_u32(s) {
        Err(e) => Err(e),
        Ok((path_index, s1)) => match parse_u32(s1) {
            Err(e) => Err(e),
            Ok((content_index, s2)) => match parse_counted_spans(s2, table) {
                Err(e) => Err(e),
                Ok((tree, s3)) => match parse_counted_spans(s3, table) {
                    Err(e) => Err(e),
                    Ok((errors, s4)) => match resolve(table, path_index) {
                        Err(e) => Err(e),
                        Ok(path) => match resolve(table, content_index) {
                            Err(e) => Err(e),
                            Ok(content) => Ok((FileView { path, content, tree, errors }, s4)),
                        },
                    },
                },
            },
        },
    }
}

/// Reads the records of `n` files one after the other.
pub open spec fn parse_files(s: Stream, table: Seq<Seq<char>>, n: nat) -> Result<
    (Seq<FileView>, Stream),
    AssetError,
>
    decreases n,
{
    if n == 0 {
        Ok((Seq::empty(), s))
    } else {
        match parse_file(s, table) {
            Err(e) => Err(e),
            Ok((first, s1)) => match parse_files(s1, table, (n - 1) as nat) {
                Err(e) => Err(e),
                Ok((rest, s2)) => Ok((seq![first] + rest, s2)),
            },
        }
    }
}

/// Reads a container that begins at the position of `s`: checks the magic
/// byte, then the version, loads the string table from where the header says
/// it is, and then reads the file records that follow the header. On success
/// the stream is left behind the last record.
pub open spec fn parse_container(s: Stream) -> Result<(ProjectView, Stream), AssetError> {
    if s.available() < 1 {
        Err(AssetError::Truncated)
    } else if s.peek(1)[0] != MAGIC {
        Err(AssetError::InvalidMagic { expected: MAGIC, got: s.peek(1)[0] })
    } else {
        match parse_u32(s.skip(1)) {
            Err(e) => Err(e),
            Ok((version, s1)) => {
                if version != ASSET_ENCODING_VERSION {
                    Err(
                        AssetError::VersionMismatch {
                            expected: ASSET_ENCODING_VERSION,
                            got: version,
                        },
                    )
                } else {
                    match parse_u32(s1) {
                        Err(e) => Err(e),
                        Ok((table_offset, s2)) => match parse_u32(s2) {
                            Err(e) => Err(e),
                            Ok((file_count, s3)) => match parse_string_table(
                                s3.seek(table_offset as nat),
                            ) {
                                Err(e) => Err(e),
                                Ok((table, _)) => match parse_files(s3, table, file_count as nat) {
                                    Err(e) => Err(e),
                                    Ok((files, s4)) => Ok((ProjectView { files }, s4)),
                                },
                            },
                        },
                    }
                }
            },
        }
    }
}

} // verus!

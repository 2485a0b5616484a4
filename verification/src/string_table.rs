//! The string table: every text of a project stored once and referred to by a
//! dense index. A builder collects the strings while a container is written;
//! a table holds them once a container has been read.

use crate::error::AssetError;
use crate::layout::{encode_string, encode_string_table, encode_strings, intern};
use crate::parse::{parse_string, parse_string_table, parse_strings};
use crate::stream::{lemma_write_write, ByteCursor, Stream};
use crate::wire::{field, low_u32, read_u32, write_u32};
use std::string::FromUtf8Error;
use vstd::hash_map::StringHashMap;
use vstd::prelude::*;
use vstd::utf8::{encode_utf8, encode_utf8_decode_utf8, valid_utf8};

verus! {

/// The error of `String::from_utf8`. Nothing is read from it.
#[verifier::external_type_specification]
#[verifier::external_body]
pub struct ExFromUtf8Error(FromUtf8Error);

/// `String::from_utf8` accepts exactly the byte vectors that are well-formed
/// UTF-8, and the string it returns is made of the bytes it was given.
pub assume_specification[ String::from_utf8 ](vec: Vec<u8>) -> (r: Result<String, FromUtf8Error>)
    ensures
        r is Ok <==> valid_utf8(vec@),
        r matches Ok(s) ==> encode_utf8(s@) == vec@,
;

/// The strings that a vector of strings stands for.
pub open spec fn strings_view(v: Seq<String>) -> Seq<Seq<char>> {
    v.map_values(|s: String| s@)
}

/// A list of items read so far, put in front of what reading the rest gives.
pub open spec fn prepend<T>(acc: Seq<T>, rest: Result<(Seq<T>, Stream), AssetError>) -> Result<
    (Seq<T>, Stream),
    AssetError,
> {
    match rest {
        Ok((items, s)) => Ok((acc + items, s)),
        Err(e) => Err(e),
    }
}

/// Collects the distinct strings of a project and gives each the next index,
/// in the order in which they are first added.
pub struct StringTableBuilder {
    map: StringHashMap<usize>,
    vec: Vec<String>,
}

impl StringTableBuilder {
    /// The strings added so far, each at its index.
    pub closed spec fn strings(&self) -> Seq<Seq<char>> {
        strings_view(self.vec@)
    }

    /// The lookup map and the list of strings agree: the map sends each
    /// string of the list to its place, and holds nothing else.
    pub closed spec fn wf(&self) -> bool {
        &&& forall|i: int|
            0 <= i < self.vec@.len() ==> self.map@.contains_key(#[trigger] self.vec@[i]@)
                && self.map@[self.vec@[i]@] == i
        &&& forall|k: Seq<char>| #[trigger]
            self.map@.contains_key(k) ==> self.map@[k] < self.vec@.len()
                && self.vec@[self.map@[k] as int]@ == k
    }

    /// A builder that holds no string.
    pub fn new() -> (builder: StringTableBuilder)
        ensures
            builder.wf(),
            builder.strings() == Seq::<Seq<char>>::empty(),
    {
        let builder = StringTableBuilder { map: StringHashMap::new(), vec: Vec::new() };
        assert(builder.strings() =~= Seq::<Seq<char>>::empty());
        builder
    }

    /// Registers `s`: a string that is new gets the next index, one that was
    /// added before keeps its index and the builder stays as it was.
    pub fn add(&mut self, s: &str)
        requires
            old(self).wf(),
        ensures
            final(self).wf(),
            final(self).strings() == intern(old(self).strings(), s@),
    {
        if !self.map.contains_key(s) {
            assert(!self.strings().contains(s@)) by {
                if self.strings().contains(s@) {
                    let i = choose|i: int| 0 <= i < self.strings().len() && self.strings()[i] == s@;
                    assert(self.map@.contains_key(self.vec@[i]@));
                }
            }
            self.map.insert(s.to_owned(), self.vec.len());
            self.vec.push(s.to_owned());
            assert(self.strings() =~= old(self).strings().push(s@));
            assert forall|i: int| 0 <= i < self.vec@.len() implies self.map@.contains_key(
                #[trigger] self.vec@[i]@,
            ) && self.map@[self.vec@[i]@] == i by {
                if i < old(self).vec@.len() {
                    assert(old(self).map@.contains_key(old(self).vec@[i]@));
                }
            }
        } else {
            let ghost i = self.map@[s@] as int;
            assert(self.strings()[i] == s@);
        }
    }

    /// The index that `s` was given, or `StringNotFound` for a string that
    /// was never added.
    pub fn idx(&self, s: &str) -> (r: Result<usize, AssetError>)
        requires
            self.wf(),
        ensures
            match r {
                Ok(i) => {
                    &&& self.strings().contains(s@)
                    &&& i == self.strings().index_of(s@)
                    &&& i < self.strings().len()
                },
                Err(e) => {
                    &&& !self.strings().contains(s@)
                    &&& e matches AssetError::StringNotFound { text }
                    &&& text@ == s@
                },
            },
    {
        match self.map.get(s) {
            Some(i) => {
                proof {
                    let j = self.strings().index_of(s@);
                    assert(self.strings()[*i as int] == s@);
                    assert(self.map@.contains_key(self.vec@[j]@));
                }
                Ok(*i)
            },
            None => {
                assert(!self.strings().contains(s@)) by {
                    if self.strings().contains(s@) {
                        let i = choose|i: int|
                            0 <= i < self.strings().len() && self.strings()[i] == s@;
                        assert(self.map@.contains_key(self.vec@[i]@));
                    }
                }
                Err(AssetError::StringNotFound { text: s.to_owned() })
            },
        }
    }

    /// Writes the table: the number of strings, then each string in the order
    /// of its index as the length of its UTF-8 form followed by that form.
    pub fn write(&self, w: &mut ByteCursor)
        ensures
            final(w)@ == old(w)@.write(encode_string_table(self.strings())),
    {
        write_u32(w, low_u32(self.vec.len()));
        let ghost strings = self.strings();
        let ghost mut written = field(strings.len() as int);
        assert(strings.skip(0) =~= strings);
        let mut i: usize = 0;
        while i < self.vec.len()
            invariant
                i <= self.vec@.len(),
                strings == self.strings(),
                strings.len() == self.vec@.len(),
                w@ == old(w)@.write(written),
                written + encode_strings(strings.skip(i as int)) == encode_string_table(strings),
            decreases self.vec@.len() - i,
        {
            let s = self.vec[i].as_str();
            let ghost rest = strings.skip(i as int);
            assert(rest[0] == s@);
            assert(rest.skip(1) =~= strings.skip(i + 1));
            let ghost before = w@;
            let bytes = s.as_bytes();
            write_u32(w, low_u32(bytes.len()));
            w.write_all(bytes);
            proof {
                lemma_write_write(before, field(encode_utf8(s@).len() as int), encode_utf8(s@));
                lemma_write_write(old(w)@, written, encode_string(s@));
                assert(written + encode_string(s@) + encode_strings(strings.skip(i + 1))
                    =~= written + encode_strings(rest));
                written = written + encode_string(s@);
            }
            i += 1;
        }
        assert(strings.skip(i as int) =~= Seq::<Seq<char>>::empty());
        assert(written =~= encode_string_table(strings));
    }
}

impl Default for StringTableBuilder {
    fn default() -> (builder: StringTableBuilder)
        ensures
            builder.wf(),
            builder.strings() == Seq::<Seq<char>>::empty(),
    {
        StringTableBuilder::new()
    }
}

/// The strings of a container that was read, each at its index.
pub struct StringTable {
    vec: Vec<String>,
}

impl View for StringTable {
    type V = Seq<Seq<char>>;

    closed spec fn view(&self) -> Seq<Seq<char>> {
        strings_view(self.vec@)
    }
}

impl StringTable {
    /// Reads a table: the number of strings, then for each its length and as
    /// many bytes of UTF-8. Fails with `Truncated` where the source ends
    /// early and with `InvalidUtf8` where a string is malformed.
    pub fn read(r: &mut ByteCursor) -> (res: Result<StringTable, AssetError>)
        ensures
            final(r)@.bytes == old(r)@.bytes,
            match parse_string_table(old(r)@) {
                Ok((strings, s)) => res matches Ok(table) && table@ == strings && final(r)@ == s,
                Err(e) => res matches Err(err) && err == e,
            },
    {
        let num_strings = read_u32(r)?;
        let ghost start = r@;
        let mut vec: Vec<String> = Vec::new();
        let mut i: u32 = 0;
        while i < num_strings
            invariant
                i <= num_strings,
                r@.bytes == old(r)@.bytes,
                parse_string_table(old(r)@) == parse_strings(start, num_strings as nat),
                parse_strings(start, num_strings as nat) == prepend(
                    strings_view(vec@),
                    parse_strings(r@, (num_strings - i) as nat),
                ),
            decreases num_strings - i,
        {
            let ghost here = r@;
            let len = read_u32(r)?;
            let buf = r.read_exact(len as usize)?;
            match String::from_utf8(buf) {
                Ok(s) => {
                    proof {
                        encode_utf8_decode_utf8(s@);
                        assert(parse_string(here) == Ok::<(Seq<char>, Stream), AssetError>((s@, r@)));
                        assert(strings_view(vec@.push(s)) =~= strings_view(vec@) + seq![s@]);
                        if let Ok((items, end)) = parse_strings(r@, (num_strings - i - 1) as nat) {
                            assert(strings_view(vec@) + (seq![s@] + items) =~= strings_view(
                                vec@.push(s),
                            ) + items);
                        }
                    }
                    vec.push(s);
                },
                Err(_) => {
                    return Err(AssetError::InvalidUtf8);
                },
            }
            i += 1;
        }
        assert(strings_view(vec@) + Seq::<Seq<char>>::empty() =~= strings_view(vec@));
        Ok(StringTable { vec })
    }

    /// The string at `idx`, or `StringIndexOutOfRange` where the table holds
    /// `idx` strings or fewer.
    pub fn get(&self, idx: usize) -> (r: Result<&str, AssetError>)
        ensures
            match r {
                Ok(s) => idx < self@.len() && s@ == self@[idx as int],
                Err(e) => idx >= self@.len() && e == (AssetError::StringIndexOutOfRange {
                    index: idx,
                    len: self@.len() as usize,
                }),
            },
    {
        if idx < self.vec.len() {
            Ok(self.vec[idx].as_str())
        } else {
            Err(AssetError::StringIndexOutOfRange { index: idx, len: self.vec.len() })
        }
    }
}

} // verus!

//! Conversion of a disc catalogue exported as XML into list records.
//!
//! The catalogue is read line by line.  `<Cd>`, `<Directory>` and `<File>`
//! set the level that a following `<Name>` belongs to; `<FullName>` gives
//! the directory path, `<Date>` and `<Size>` describe the current file, and
//! `</File>` writes the record of that file.

use vstd::prelude::*;
use crate::records::{
    build_list_record, get_ok, head_readable, head_size, law_list_record_read_back, lemma_name_key_ascii,
    lemma_name_key_len, list_record, name_key, push_name_key, read_tail, starts_clean, TailRead,
};
use crate::text::{
    contains, contains_spec, dec_pad, find, find_spec, parse_i64_or, parse_int, push_all,
    push_dec_pad, slice_to_vec_bytes,
};

verus! {

/// What a `<Name>` line is taken as.
#[derive(Clone, Copy, PartialEq, Eq, Debug, Structural)]
pub enum Level {
    Blank,
    Cd,
    Dir,
    File,
}

/// The fields gathered so far.
pub struct CatalogView {
    pub level: Level,
    pub cd: Seq<u8>,
    pub dir: Seq<u8>,
    pub file: Seq<u8>,
    pub date: Seq<u8>,
    pub size: Seq<u8>,
    pub hex: Seq<u8>,
}

pub open spec fn lit_cd() -> Seq<u8> { seq![60u8, 67u8, 100u8, 62u8] }  // <Cd>
pub open spec fn lit_directory() -> Seq<u8> { seq![60u8, 68u8, 105u8, 114u8, 101u8, 99u8, 116u8, 111u8, 114u8, 121u8, 62u8] }  // <Directory>
pub open spec fn lit_file() -> Seq<u8> { seq![60u8, 70u8, 105u8, 108u8, 101u8, 62u8] }  // <File>
pub open spec fn lit_file_end() -> Seq<u8> { seq![60u8, 47u8, 70u8, 105u8, 108u8, 101u8, 62u8] }  // </File>
pub open spec fn lit_name() -> Seq<u8> { seq![60u8, 78u8, 97u8, 109u8, 101u8, 62u8] }  // <Name>
pub open spec fn lit_name_end() -> Seq<u8> { seq![60u8, 47u8, 78u8, 97u8, 109u8, 101u8, 62u8] }  // </Name>
pub open spec fn lit_full_name() -> Seq<u8> { seq![60u8, 70u8, 117u8, 108u8, 108u8, 78u8, 97u8, 109u8, 101u8, 62u8] }  // <FullName>
pub open spec fn lit_full_name_end() -> Seq<u8> { seq![60u8, 47u8, 70u8, 117u8, 108u8, 108u8, 78u8, 97u8, 109u8, 101u8, 62u8] }  // </FullName>
pub open spec fn lit_date() -> Seq<u8> { seq![60u8, 68u8, 97u8, 116u8, 101u8, 62u8] }  // <Date>
pub open spec fn lit_date_end() -> Seq<u8> { seq![60u8, 47u8, 68u8, 97u8, 116u8, 101u8, 62u8] }  // </Date>
pub open spec fn lit_size() -> Seq<u8> { seq![60u8, 83u8, 105u8, 122u8, 101u8, 62u8] }  // <Size>
pub open spec fn lit_size_end() -> Seq<u8> { seq![60u8, 47u8, 83u8, 105u8, 122u8, 101u8, 62u8] }  // </Size>

/// The text between an opening tag (known to be in the line) and the first
/// closing tag: `None` where the tool aborts (no closing tag, or the
/// closing tag before the opening one); `Some((start, len))` otherwise, the
/// value being present when `len > 0`.
pub open spec fn tag_span(line: Seq<u8>, open: Seq<u8>, close: Seq<u8>) -> Option<(int, int)> {
    let p0 = find_spec(line, open)->Some_0;
    match find_spec(line, close) {
        None => None,
        Some(p1) => if p1 < p0 + open.len() {
            None
        } else {
            Some((p0 + open.len(), p1 - p0 - open.len()))
        },
    }
}

/// The `***no /X or null value***` text of a tag without a value.
pub open spec fn no_value(what: Seq<u8>) -> Seq<u8> {
    seq![42u8, 42u8, 42u8, 110u8, 111u8, 32u8, 47u8] + what + seq![32u8, 111u8, 114u8, 32u8, 110u8, 117u8, 108u8, 108u8, 32u8, 118u8, 97u8, 108u8, 117u8, 101u8, 42u8, 42u8, 42u8]
}

pub open spec fn word_name() -> Seq<u8> { seq![78u8, 97u8, 109u8, 101u8] }
pub open spec fn word_date() -> Seq<u8> { seq![68u8, 97u8, 116u8, 101u8] }
pub open spec fn word_size() -> Seq<u8> { seq![83u8, 105u8, 122u8, 101u8] }

/// `invalid size value: ` followed by the text read.
pub open spec fn invalid_size(v: Seq<u8>) -> Seq<u8> {
    seq![105u8, 110u8, 118u8, 97u8, 108u8, 105u8, 100u8, 32u8, 115u8, 105u8, 122u8, 101u8, 32u8, 118u8, 97u8, 108u8, 117u8, 101u8, 58u8, 32u8] + v
}

pub enum CatStep {
    Next(CatalogView, Option<Seq<u8>>),
    Abort,
}

/// The record written at `</File>`.
pub open spec fn file_record(st: CatalogView) -> Seq<u8> {
    list_record(st.hex, st.size, st.cd, st.dir, st.file, st.date)
}

/// The value of a tag span, `None` where taking it out of the line aborts.
pub open spec fn span_value(line: Seq<u8>, pos: int, len: int) -> Option<Seq<u8>> {
    if get_ok(line, pos, pos + len) { Some(line.subrange(pos, pos + len)) } else { None }
}

/// What one line of the catalogue does.
pub open spec fn catalog_step(st: CatalogView, line: Seq<u8>) -> CatStep {
    if contains_spec(line, lit_cd()) {
        CatStep::Next(CatalogView { level: Level::Cd, ..st }, None)
    } else if contains_spec(line, lit_directory()) {
        CatStep::Next(CatalogView { level: Level::Dir, ..st }, None)
    } else if contains_spec(line, lit_file()) {
        CatStep::Next(CatalogView { level: Level::File, ..st }, None)
    } else if contains_spec(line, lit_file_end()) {
        CatStep::Next(
            CatalogView {
                level: Level::Dir,
                file: Seq::empty(),
                date: Seq::empty(),
                size: Seq::empty(),
                hex: Seq::empty(),
                ..st
            },
            Some(file_record(st)),
        )
    } else if contains_spec(line, lit_name()) {
        match tag_span(line, lit_name(), lit_name_end()) {
            None => CatStep::Abort,
            Some((pos, len)) => {
                let present = len > 0;
                if present && span_value(line, pos, len) is None {
                    CatStep::Abort
                } else {
                    let v = if present { line.subrange(pos, pos + len) } else { no_value(word_name()) };
                    match st.level {
                        Level::Cd => CatStep::Next(CatalogView { cd: v, ..st }, None),
                        Level::Dir => CatStep::Next(
                            CatalogView { dir: if present { v } else { seq![47u8] }, ..st },
                            None,
                        ),
                        Level::File => CatStep::Next(CatalogView { hex: name_key(v), file: v, ..st }, None),
                        Level::Blank => CatStep::Next(st, None),
                    }
                }
            },
        }
    } else if contains_spec(line, lit_full_name()) {
        match tag_span(line, lit_full_name(), lit_full_name_end()) {
            None => CatStep::Abort,
            Some((pos, len)) => {
                if st.level == Level::Dir && len > 0 {
                    match span_value(line, pos, len) {
                        None => CatStep::Abort,
                        Some(v) => CatStep::Next(CatalogView { dir: v, ..st }, None),
                    }
                } else {
                    CatStep::Next(st, None)
                }
            },
        }
    } else if st.level == Level::File && contains_spec(line, lit_date()) {
        match tag_span(line, lit_date(), lit_date_end()) {
            None => CatStep::Abort,
            Some((pos, len)) => if len > 0 {
                match span_value(line, pos, len) {
                    None => CatStep::Abort,
                    Some(v) => CatStep::Next(CatalogView { date: v, ..st }, None),
                }
            } else {
                CatStep::Next(CatalogView { date: no_value(word_date()), ..st }, None)
            },
        }
    } else if st.level == Level::File && contains_spec(line, lit_size()) {
        match tag_span(line, lit_size(), lit_size_end()) {
            None => CatStep::Abort,
            Some((pos, len)) => if len > 0 {
                match span_value(line, pos, len) {
                    None => CatStep::Abort,
                    Some(v) => {
                        let n = parse_i64_or(v, -99);
                        CatStep::Next(
                            CatalogView { size: if n >= 0 { dec_pad(n as nat, 16) } else { invalid_size(v) }, ..st },
                            None,
                        )
                    },
                }
            } else {
                CatStep::Next(CatalogView { size: no_value(word_size()), ..st }, None)
            },
        }
    } else {
        CatStep::Next(st, None)
    }
}


// ---------------------------------------------------------------- laws

/// The key in the state is that of the file name in it (both empty between
/// two files).
pub open spec fn key_matches_file(st: CatalogView) -> bool {
    st.hex == name_key(st.file) || (st.hex.len() == 0 && st.file.len() == 0)
}

/// Every line keeps the key of the conversion state that of its file name.
pub proof fn law_catalog_key_follows_name(st: CatalogView, line: Seq<u8>)
    requires
        key_matches_file(st),
    ensures
        catalog_step(st, line) matches CatStep::Next(s2, _) ==> key_matches_file(s2),
{
}

/// A record the conversion writes for a file with a name of at most 255
/// bytes and a size in digits is read back by the evaluation: the key of
/// the name and the size from its head, directory, name and date from its
/// tail, when these fit their length digits.
pub proof fn law_catalog_record_reads_back(st: CatalogView, line: Seq<u8>, size: nat)
    requires
        key_matches_file(st),
        catalog_step(st, line) matches CatStep::Next(_, Some(_)),
        1 <= st.file.len() <= 255,
        st.size == dec_pad(size, 16),
        size < 10000000000000000,
        st.cd.len() < 100,
        st.dir.len() < 1000,
        st.date.len() < 100,
        starts_clean(st.cd),
        starts_clean(st.dir),
        starts_clean(st.file),
        starts_clean(st.date),
    ensures
        ({
            let rec = catalog_step(st, line)->Next_1->Some_0;
            &&& rec.len() >= 540
            &&& head_readable(rec)
            &&& rec.subrange(0, 512) == name_key(st.file)
            &&& head_size(rec) == size
            &&& read_tail(rec, rec) == (TailRead::Fields { dir: st.dir, name: st.file, date: st.date })
        }),
{
    lemma_name_key_len(st.file);
    lemma_name_key_ascii(st.file);
    assert(st.hex == name_key(st.file));
    law_list_record_read_back(name_key(st.file), size, st.cd, st.dir, st.file, st.date);
}


/// Closing a file (`</File>`, on a line that opens no disc, directory or
/// file) writes the record of the file with the directory and disc reference
/// of the state, keeps those two, and clears the file's name, key, date and
/// size, going back to the directory level.
pub proof fn law_closing_a_file_keeps_the_directory(st: CatalogView, line: Seq<u8>)
    requires
        contains_spec(line, lit_file_end()),
        !contains_spec(line, lit_cd()),
        !contains_spec(line, lit_directory()),
        !contains_spec(line, lit_file()),
    ensures
        catalog_step(st, line) matches CatStep::Next(s2, Some(rec)) && {
            &&& s2.dir == st.dir
            &&& s2.cd == st.cd
            &&& s2.level == Level::Dir
            &&& s2.file.len() == 0 && s2.hex.len() == 0 && s2.date.len() == 0 && s2.size.len() == 0
            &&& rec == list_record(st.hex, st.size, st.cd, st.dir, st.file, st.date)
        },
{
}

/// The directory of the conversion changes only on a `<Name>` or
/// `<FullName>` line at the directory level, and the disc reference only
/// on a `<Name>` line at the disc level: every other line keeps both.
pub proof fn law_directory_changes_only_by_its_tags(st: CatalogView, line: Seq<u8>)
    ensures
        catalog_step(st, line) matches CatStep::Next(s2, _) ==> {
            &&& s2.dir != st.dir ==> st.level == Level::Dir
                && (contains_spec(line, lit_name()) || contains_spec(line, lit_full_name()))
            &&& s2.cd != st.cd ==> st.level == Level::Cd && contains_spec(line, lit_name())
        },
{
}

/// A record is written only by a `</File>` line, and a file's name, date
/// and size change only on their own tags at the file level, or are
/// cleared by `</File>`; a name read at the file level comes with its key.
pub proof fn law_file_fields_change_only_by_their_tags(st: CatalogView, line: Seq<u8>)
    ensures
        catalog_step(st, line) matches CatStep::Next(s2, out) ==> {
            &&& out is Some ==> contains_spec(line, lit_file_end())
            &&& s2.file != st.file ==> contains_spec(line, lit_file_end())
                || (st.level == Level::File && contains_spec(line, lit_name()) && s2.hex == name_key(s2.file))
            &&& s2.date != st.date ==> contains_spec(line, lit_file_end())
                || (st.level == Level::File && contains_spec(line, lit_date()))
            &&& s2.size != st.size ==> contains_spec(line, lit_file_end())
                || (st.level == Level::File && contains_spec(line, lit_size()))
        },
{
}

// ---------------------------------------------------------------- exec

/// The state of a catalogue conversion between two lines.
#[derive(Debug)]
pub struct CatalogState {
    pub level: Level,
    pub cd: Vec<u8>,
    pub dir: Vec<u8>,
    pub file: Vec<u8>,
    pub date: Vec<u8>,
    pub size: Vec<u8>,
    pub hex: Vec<u8>,
}

impl CatalogState {
    pub open spec fn view(&self) -> CatalogView {
        CatalogView {
            level: self.level,
            cd: self.cd@,
            dir: self.dir@,
            file: self.file@,
            date: self.date@,
            size: self.size@,
            hex: self.hex@,
        }
    }

    /// The state before the first line: no level, every field empty.
    pub fn new() -> (s: CatalogState)
        ensures
            s@ == (CatalogView {
                level: Level::Blank,
                cd: Seq::empty(),
                dir: Seq::empty(),
                file: Seq::empty(),
                date: Seq::empty(),
                size: Seq::empty(),
                hex: Seq::empty(),
            }),
    {
        CatalogState {
            level: Level::Blank,
            cd: Vec::new(),
            dir: Vec::new(),
            file: Vec::new(),
            date: Vec::new(),
            size: Vec::new(),
            hex: Vec::new(),
        }
    }

    fn copy(&self) -> (s: CatalogState)
        ensures
            s@ == self@,
    {
        CatalogState {
            level: self.level,
            cd: slice_to_vec_bytes(self.cd.as_slice()),
            dir: slice_to_vec_bytes(self.dir.as_slice()),
            file: slice_to_vec_bytes(self.file.as_slice()),
            date: slice_to_vec_bytes(self.date.as_slice()),
            size: slice_to_vec_bytes(self.size.as_slice()),
            hex: slice_to_vec_bytes(self.hex.as_slice()),
        }
    }

    /// The state after `line` and the record it writes, `None` where the
    /// tool aborts on the line.
    fn next(&self, line: &[u8]) -> (r: Option<(CatalogState, Option<Vec<u8>>)>)
        ensures
            match catalog_step(self@, line@) {
                CatStep::Abort => r is None,
                CatStep::Next(v, out) => r matches Some(t) && t.0@ == v && match out {
                    None => t.1 is None,
                    Some(o) => t.1 matches Some(x) && x@ == o,
                },
            },
    {
        if contains(line, &[60u8, 67, 100, 62]) {
            proof { assert((&[60u8, 67, 100, 62])@ == lit_cd()); }
            let mut s = self.copy();
            s.level = Level::Cd;
            return Some((s, None));
        }
        proof { assert((&[60u8, 67, 100, 62])@ == lit_cd()); }
        let directory: [u8; 11] = [60u8, 68, 105, 114, 101, 99, 116, 111, 114, 121, 62];
        assert(directory@ == lit_directory());
        if contains(line, &directory) {
            let mut s = self.copy();
            s.level = Level::Dir;
            return Some((s, None));
        }
        let file_tag: [u8; 6] = [60u8, 70, 105, 108, 101, 62];
        assert(file_tag@ == lit_file());
        if contains(line, &file_tag) {
            let mut s = self.copy();
            s.level = Level::File;
            return Some((s, None));
        }
        let file_end: [u8; 7] = [60u8, 47, 70, 105, 108, 101, 62];
        assert(file_end@ == lit_file_end());
        if contains(line, &file_end) {
            let rec = build_list_record(
                self.hex.as_slice(),
                self.size.as_slice(),
                self.cd.as_slice(),
                self.dir.as_slice(),
                self.file.as_slice(),
                self.date.as_slice(),
            );
            let s = CatalogState {
                level: Level::Dir,
                cd: slice_to_vec_bytes(self.cd.as_slice()),
                dir: slice_to_vec_bytes(self.dir.as_slice()),
                file: Vec::new(),
                date: Vec::new(),
                size: Vec::new(),
                hex: Vec::new(),
            };
            return Some((s, Some(rec)));
        }
        let name_tag: [u8; 6] = [60u8, 78, 97, 109, 101, 62];
        let name_end: [u8; 7] = [60u8, 47, 78, 97, 109, 101, 62];
        assert(name_tag@ == lit_name());
        assert(name_end@ == lit_name_end());
        if contains(line, &name_tag) {
            let (pos, len) = match tag_span_exec(line, &name_tag, &name_end) {
                None => return None,
                Some(t) => t,
            };
            let present = len > 0;
            let v: Vec<u8> = if present {
                match value_at(line, pos, len) {
                    None => return None,
                    Some(v) => v,
                }
            } else {
                no_value_exec(&[78u8, 97, 109, 101])
            };
            proof { assert((&[78u8, 97, 109, 101])@ == word_name()); }
            let mut s = self.copy();
            match self.level {
                Level::Cd => {
                    s.cd = v;
                },
                Level::Dir => {
                    if present {
                        s.dir = v;
                    } else {
                        let mut slash: Vec<u8> = Vec::new();
                        slash.push(47);
                        s.dir = slash;
                    }
                },
                Level::File => {
                    let mut hex: Vec<u8> = Vec::new();
                    push_name_key(&mut hex, v.as_slice());
                    s.hex = hex;
                    s.file = v;
                },
                Level::Blank => {},
            }
            return Some((s, None));
        }
        let full_tag: [u8; 10] = [60u8, 70, 117, 108, 108, 78, 97, 109, 101, 62];
        let full_end: [u8; 11] = [60u8, 47, 70, 117, 108, 108, 78, 97, 109, 101, 62];
        assert(full_tag@ == lit_full_name());
        assert(full_end@ == lit_full_name_end());
        if contains(line, &full_tag) {
            let (pos, len) = match tag_span_exec(line, &full_tag, &full_end) {
                None => return None,
                Some(t) => t,
            };
            let mut s = self.copy();
            if self.level == Level::Dir && len > 0 {
                match value_at(line, pos, len) {
                    None => return None,
                    Some(v) => {
                        s.dir = v;
                    },
                }
            }
            return Some((s, None));
        }
        let date_tag: [u8; 6] = [60u8, 68, 97, 116, 101, 62];
        let date_end: [u8; 7] = [60u8, 47, 68, 97, 116, 101, 62];
        assert(date_tag@ == lit_date());
        assert(date_end@ == lit_date_end());
        if self.level == Level::File && contains(line, &date_tag) {
            let (pos, len) = match tag_span_exec(line, &date_tag, &date_end) {
                None => return None,
                Some(t) => t,
            };
            let mut s = self.copy();
            if len > 0 {
                match value_at(line, pos, len) {
                    None => return None,
                    Some(v) => {
                        s.date = v;
                    },
                }
            } else {
                s.date = no_value_exec(&[68u8, 97, 116, 101]);
                proof { assert((&[68u8, 97, 116, 101])@ == word_date()); }
            }
            return Some((s, None));
        }
        let size_tag: [u8; 6] = [60u8, 83, 105, 122, 101, 62];
        let size_end: [u8; 7] = [60u8, 47, 83, 105, 122, 101, 62];
        assert(size_tag@ == lit_size());
        assert(size_end@ == lit_size_end());
        if self.level == Level::File && contains(line, &size_tag) {
            let (pos, len) = match tag_span_exec(line, &size_tag, &size_end) {
                None => return None,
                Some(t) => t,
            };
            let mut s = self.copy();
            if len > 0 {
                match value_at(line, pos, len) {
                    None => return None,
                    Some(v) => {
                        let n: i64 = match parse_int(v.as_slice(), -9223372036854775808, 9223372036854775807) {
                            Some(n) => n,
                            None => -99,
                        };
                        let mut size: Vec<u8> = Vec::new();
                        if n >= 0 {
                            push_dec_pad(&mut size, n as u64, 16);
                            proof { assert(size@ =~= dec_pad(n as nat, 16)); }
                        } else {
                            let prefix: [u8; 20] = [105u8, 110, 118, 97, 108, 105, 100, 32, 115, 105, 122, 101, 32, 118, 97, 108, 117, 101, 58, 32];
                            push_all(&mut size, &prefix);
                            push_all(&mut size, v.as_slice());
                            proof { assert(size@ =~= invalid_size(v@)); }
                        }
                        s.size = size;
                    },
                }
            } else {
                s.size = no_value_exec(&[83u8, 105, 122, 101]);
                proof { assert((&[83u8, 105, 122, 101])@ == word_size()); }
            }
            return Some((s, None));
        }
        Some((self.copy(), None))
    }

    /// Whether the tool aborts on `line` in this state: a tag
    /// whose closing tag is missing or stands before it, or a value that
    /// cuts a UTF-8 character.
    pub fn step_aborts(&self, line: &[u8]) -> (r: bool)
        ensures
            r == (catalog_step(self@, line@) is Abort),
    {
        self.next(line).is_none()
    }

    /// Takes one line of the catalogue; returns the record to write, if any.
    pub fn step(&mut self, line: &[u8]) -> (out: Option<Vec<u8>>)
        requires
            !(catalog_step(old(self)@, line@) is Abort),
        ensures
            catalog_step(old(self)@, line@) matches CatStep::Next(v, o) && final(self)@ == v && match o {
                None => out is None,
                Some(rec) => out matches Some(x) && x@ == rec,
            },
    {
        match self.next(line) {
            Some((s, out)) => {
                *self = s;
                out
            },
            None => None,
        }
    }
}

/// Whether the conversion stops after the line it has just taken: it
/// reads the lines of the catalogue (`lines_read` of them so far) until
/// there are more than the number of rows entered.
pub fn conversion_done(lines_read: i64, numrows: i64) -> (r: bool)
    ensures
        r == (lines_read > numrows),
{
    lines_read > numrows
}

fn tag_span_exec(line: &[u8], open: &[u8], close: &[u8]) -> (r: Option<(usize, usize)>)
    requires
        contains_spec(line@, open@),
    ensures
        match tag_span(line@, open@, close@) {
            None => r is None,
            Some((pos, len)) => r matches Some(t) && t.0 == pos && t.1 == len,
        },
{
    let p0 = match find(line, open) {
        Some(p) => p,
        None => return None,
    };
    let p1 = match find(line, close) {
        Some(p) => p,
        None => return None,
    };
    if p1 < p0 || p1 - p0 < open.len() {
        return None;
    }
    Some((p0 + open.len(), p1 - p0 - open.len()))
}

fn value_at(line: &[u8], pos: usize, len: usize) -> (r: Option<Vec<u8>>)
    ensures
        match span_value(line@, pos as int, len as int) {
            None => r is None,
            Some(v) => r matches Some(x) && x@ == v,
        },
{
    let n: usize = line.len();
    let e = match pos.checked_add(len) {
        Some(e) => e,
        None => {
            assert(pos + len > n);
            return None;
        },
    };
    if !crate::records::can_get(line, pos, e) {
        return None;
    }
    Some(slice_to_vec_bytes(&line[pos..e]))
}

fn no_value_exec(what: &[u8]) -> (r: Vec<u8>)
    ensures
        r@ == no_value(what@),
{
    let mut v: Vec<u8> = Vec::new();
    push_all(&mut v, &[42u8, 42, 42, 110, 111, 32, 47]);
    push_all(&mut v, what);
    push_all(&mut v, &[32u8, 111, 114, 32, 110, 117, 108, 108, 32, 118, 97, 108, 117, 101, 42, 42, 42]);
    proof {
        assert(v@ =~= no_value(what@));
    }
    v
}

} // verus!

//! SARC archives with message files in them.
//!
//! An archive is read by `roead`. The format is stated here as far as it
//! tells what the reader finds in an archive, and what has to hold for it to
//! get through a damaged one without running past its end.
use crate::compression;
use crate::error::MessageError;
use crate::language;
use crate::text;
use roead::sarc::Sarc;
use vstd::prelude::*;
use vstd::slice::slice_subrange;
use vstd::string::*;
use vstd::utf8::*;

verus! {

/// Whether four given bytes stand at a position.
pub open spec fn tag_at(data: Seq<u8>, at: int, a: u8, b: u8, c: u8, d: u8) -> bool {
    at + 4 <= data.len() && data[at] == a && data[at + 1] == b && data[at + 2] == c && data[at + 3]
        == d
}

/// Whether data looks like a SARC archive: more than 0x20 bytes, with the
/// magic number at the start or at 0x11.
pub open spec fn looks_like_sarc(data: Seq<u8>) -> bool {
    data.len() > 0x20 && (tag_at(data, 0, 0x53, 0x41, 0x52, 0x43) || tag_at(
        data,
        0x11,
        0x53,
        0x41,
        0x52,
        0x43,
    ))
}

/// The 16-bit number at a position, in the given byte order.
pub open spec fn short_at(data: Seq<u8>, big: bool, at: int) -> nat {
    if big {
        (data[at] * 256 + data[at + 1]) as nat
    } else {
        (data[at + 1] * 256 + data[at]) as nat
    }
}

/// The 32-bit number at a position, in the given byte order.
pub open spec fn word_at(data: Seq<u8>, big: bool, at: int) -> nat {
    if big {
        short_at(data, big, at) * 65536 + short_at(data, big, at + 2)
    } else {
        short_at(data, big, at + 2) * 65536 + short_at(data, big, at)
    }
}

/// Number of files that the header states.
pub open spec fn file_count(data: Seq<u8>, big: bool) -> nat {
    short_at(data, big, 0x1A)
}

/// Where the file names start: after the headers, 16 bytes for each file and
/// the header of the names.
pub open spec fn names_start(data: Seq<u8>, big: bool) -> int {
    0x28 + 16 * file_count(data, big) as int
}

/// Where the contents of the files start.
pub open spec fn contents_start(data: Seq<u8>, big: bool) -> int {
    word_at(data, big, 0x0C) as int
}

/// Whether there is a byte-order mark, of either byte order.
pub open spec fn is_marked(data: Seq<u8>) -> bool {
    (data[6] == 0xFE && data[7] == 0xFF) || (data[6] == 0xFF && data[7] == 0xFE)
}

/// Whether the headers are those of an archive in the given byte order.
pub open spec fn headed(data: Seq<u8>, big: bool) -> bool {
    &&& data.len() >= 0x20
    &&& is_marked(data)
    &&& tag_at(data, 0, 0x53, 0x41, 0x52, 0x43)
    &&& short_at(data, big, 4) == 0x14
    &&& short_at(data, big, 0x10) == 0x100
    &&& tag_at(data, 0x14, 0x53, 0x46, 0x41, 0x54)
    &&& short_at(data, big, 0x18) == 0x0C
    &&& file_count(data, big) < 0x4000
    &&& data.len() >= names_start(data, big)
    &&& tag_at(data, names_start(data, big) - 8, 0x53, 0x46, 0x4E, 0x54)
    &&& short_at(data, big, names_start(data, big) - 4) == 8
    &&& contents_start(data, big) >= names_start(data, big)
}

/// Position of the first zero byte from `from` on, or the end of the data.
pub open spec fn first_zero(data: Seq<u8>, from: int) -> int
    decreases data.len() - from,
{
    if from >= data.len() {
        data.len() as int
    } else if data[from] == 0 {
        from
    } else {
        first_zero(data, from + 1)
    }
}

/// Whether the name of the file at `index` is given at all.
pub open spec fn is_named(data: Seq<u8>, big: bool, index: int) -> bool {
    word_at(data, big, 0x20 + 16 * index + 4) != 0
}

/// Where the name of the file at `index` starts.
pub open spec fn name_start(data: Seq<u8>, big: bool, index: int) -> int {
    names_start(data, big) + 4 * (word_at(data, big, 0x20 + 16 * index + 4) % 0x100_0000)
}

/// Whether a name that starts at `start` ends within the data and is UTF-8.
pub open spec fn name_reads(data: Seq<u8>, start: int) -> bool {
    first_zero(data, start) < data.len() && valid_utf8(
        data.subrange(start, first_zero(data, start)),
    )
}

/// Where the contents of the file at `index` end.
pub open spec fn contents_end(data: Seq<u8>, big: bool, index: int) -> int {
    contents_start(data, big) + word_at(data, big, 0x20 + 16 * index + 12)
}

/// Where the contents of the file at `index` begin.
pub open spec fn contents_begin(data: Seq<u8>, big: bool, index: int) -> int {
    contents_start(data, big) + word_at(data, big, 0x20 + 16 * index + 8)
}

/// Whether the files from `index` on can be listed: up to the first one whose
/// name or contents do not read, at which the listing ends, each name starts
/// within the data and each position is a 32-bit number.
pub open spec fn listable(data: Seq<u8>, big: bool, index: int) -> bool
    decreases file_count(data, big) - index,
{
    if index >= file_count(data, big) {
        true
    } else if is_named(data, big, index) && name_start(data, big, index) > data.len() {
        false
    } else if is_named(data, big, index) && !name_reads(data, name_start(data, big, index)) {
        true
    } else if contents_begin(data, big, index) > u32::MAX || contents_end(data, big, index)
        > u32::MAX {
        false
    } else if contents_begin(data, big, index) > contents_end(data, big, index) || contents_end(
        data,
        big,
        index,
    ) > data.len() {
        true
    } else {
        listable(data, big, index + 1)
    }
}

/// Whether data can be given to the archive reader: it is no archive, or its
/// files can be listed.
pub open spec fn is_safe_archive(data: Seq<u8>) -> bool {
    forall|big: bool| #[trigger] headed(data, big) ==> listable(data, big, 0)
}

/// A file out of an archive.
pub struct ArchiveFile {
    /// Its name, if it has one.
    pub name: Option<String>,
    /// Its contents.
    pub data: Vec<u8>,
}

/// A file's name and contents.
pub type FileModel = (Option<Seq<char>>, Seq<u8>);

impl ArchiveFile {
    /// The file's name and contents.
    pub open spec fn view(&self) -> FileModel {
        (
            match self.name {
                Some(name) => Some(name@),
                None => None,
            },
            self.data@,
        )
    }
}

/// What a list of files holds.
pub open spec fn file_list(files: Seq<ArchiveFile>) -> Seq<FileModel> {
    files.map_values(|f: ArchiveFile| f@)
}

/// The name of the file at `index`, if it is given: from where it starts up to
/// the next zero byte.
pub open spec fn file_name(data: Seq<u8>, big: bool, index: int) -> Option<Seq<char>> {
    if is_named(data, big, index) {
        let start = name_start(data, big, index);
        Some(decode_utf8(data.subrange(start, first_zero(data, start))))
    } else {
        None
    }
}

/// The files from `index` on, up to the first one whose name or contents do
/// not read.
pub open spec fn listing(data: Seq<u8>, big: bool, index: int) -> Seq<FileModel>
    decreases file_count(data, big) - index,
{
    let begin = contents_begin(data, big, index);
    let end = contents_end(data, big, index);
    if index >= file_count(data, big) {
        Seq::empty()
    } else if is_named(data, big, index) && !name_reads(data, name_start(data, big, index)) {
        Seq::empty()
    } else if begin > end || end > data.len() {
        Seq::empty()
    } else {
        seq![(file_name(data, big, index), data.subrange(begin, end))] + listing(
            data,
            big,
            index + 1,
        )
    }
}

/// The files of an archive, in the byte order that its headers are in.
pub open spec fn archive_listing(data: Seq<u8>) -> Seq<FileModel> {
    listing(data, headed(data, true), 0)
}

/// Lists the files of an archive.
///
/// Calls `roead::sarc::Sarc::new`, and `files` on the archive. Believed of
/// them: only data with the headers of an archive is opened, and the files are
/// listed that it states, up to the first one that does not read. (Yaz0 data
/// is not given to it: with its `yaz0` feature it would take that layer off.)
/// Left unsaid: that such data is opened. The reader takes the byte-order mark for a number
/// in the byte order of the machine, so that this depends on the machine; a
/// little-endian one opens every archive whose mark agrees with its headers.
#[verifier::external_body]
fn archive_files(data: &[u8]) -> (r: Result<Vec<ArchiveFile>, roead::Error>)
    requires
        !compression::is_yaz0(data@),
        is_safe_archive(data@),
    ensures
        r matches Ok(files) ==> file_list(files@) == archive_listing(data@),
        r is Ok ==> headed(data@, true) || headed(data@, false),
{
    let sarc = Sarc::new(data)?;
    Ok(
        sarc.files().map(
            |f| ArchiveFile { name: f.name.map(|s| s.to_string()), data: f.data().to_vec() },
        ).collect(),
    )
}

/// Tells whether data looks like a SARC archive; see [`looks_like_sarc`].
pub fn is_sarc(d: &[u8]) -> (r: bool)
    ensures
        r == looks_like_sarc(d@),
{
    d.len() > 0x20 && (has_tag(d, 0, 0x53, 0x41, 0x52, 0x43) || has_tag(
        d,
        0x11,
        0x53,
        0x41,
        0x52,
        0x43,
    ))
}

fn has_tag(data: &[u8], at: usize, a: u8, b: u8, c: u8, d: u8) -> (r: bool)
    ensures
        r == tag_at(data@, at as int, a, b, c, d),
{
    data.len() >= 4 && at <= data.len() - 4 && data[at] == a && data[at + 1] == b && data[at + 2]
        == c && data[at + 3] == d
}

fn read_short(data: &[u8], big: bool, at: usize) -> (r: u64)
    requires
        at + 2 <= data@.len(),
    ensures
        r == short_at(data@, big, at as int),
        r <= 0xFFFF,
{
    assert(data@.len() == data.len());
    if big {
        data[at] as u64 * 256 + data[at + 1] as u64
    } else {
        data[at + 1] as u64 * 256 + data[at] as u64
    }
}

fn read_word(data: &[u8], big: bool, at: usize) -> (r: u64)
    requires
        at + 4 <= data@.len(),
    ensures
        r == word_at(data@, big, at as int),
        r <= 0xFFFF_FFFF,
{
    assert(data@.len() == data.len());
    if big {
        read_short(data, big, at) * 65536 + read_short(data, big, at + 2)
    } else {
        read_short(data, big, at + 2) * 65536 + read_short(data, big, at)
    }
}

fn is_headed(data: &[u8], big: bool) -> (r: bool)
    ensures
        r == headed(data@, big),
{
    if data.len() < 0x20 || !has_tag(data, 0, 0x53, 0x41, 0x52, 0x43) {
        return false;
    }
    let big_mark: bool = data[6] == 0xFE && data[7] == 0xFF;
    let little_mark: bool = data[6] == 0xFF && data[7] == 0xFE;
    if !big_mark && !little_mark {
        return false;
    }
    if read_short(data, big, 4) != 0x14 || read_short(data, big, 0x10) != 0x100 {
        return false;
    }
    if !has_tag(data, 0x14, 0x53, 0x46, 0x41, 0x54) || read_short(data, big, 0x18) != 0x0C {
        return false;
    }
    let count: u64 = read_short(data, big, 0x1A);
    if count >= 0x4000 {
        return false;
    }
    let names: usize = 0x28 + 16 * count as usize;
    data.len() >= names && has_tag(data, names - 8, 0x53, 0x46, 0x4E, 0x54) && read_short(
        data,
        big,
        names - 4,
    ) == 8 && read_word(data, big, 0x0C) >= names as u64
}

fn find_zero(data: &[u8], from: usize) -> (r: usize)
    requires
        from <= data@.len(),
    ensures
        r == first_zero(data@, from as int),
        from <= r <= data@.len(),
{
    let mut i: usize = from;
    while i < data.len() && data[i] != 0
        invariant
            from <= i <= data@.len(),
            first_zero(data@, from as int) == first_zero(data@, i as int),
        decreases data@.len() - i,
    {
        i = i + 1;
    }
    i
}

fn is_listable(data: &[u8], big: bool) -> (r: bool)
    requires
        headed(data@, big),
    ensures
        r == listable(data@, big, 0),
{
    let count: u64 = read_short(data, big, 0x1A);
    let start: u64 = read_word(data, big, 0x0C);
    let names: u64 = 0x28 + 16 * count;
    let mut i: u64 = 0;
    while i < count
        invariant
            i <= count,
            count < 0x4000,
            headed(data@, big),
            count == file_count(data@, big),
            start == contents_start(data@, big),
            start <= 0xFFFF_FFFF,
            names == names_start(data@, big),
            names == 0x28 + 16 * count,
            names <= data@.len(),
            listable(data@, big, 0) == listable(data@, big, i as int),
        decreases count - i,
    {
        assert(data@.len() == data.len());
        let at: usize = 0x20 + 16 * i as usize;
        let name: u64 = read_word(data, big, at + 4);
        let begin: u64 = start + read_word(data, big, at + 8);
        let end: u64 = start + read_word(data, big, at + 12);
        if name != 0 {
            let from: u64 = names + 4 * (name % 0x100_0000);
            if from > data.len() as u64 {
                return false;
            }
            let from: usize = from as usize;
            let zero: usize = find_zero(data, from);
            if zero >= data.len() {
                return true;
            }
            match text::utf8_text(slice_subrange(data, from, zero)) {
                None => {
                    return true;
                },
                Some(_) => {},
            }
        }
        if begin > 0xFFFF_FFFF || end > 0xFFFF_FFFF {
            return false;
        }
        if begin > end || end > data.len() as u64 {
            return true;
        }
        i = i + 1;
    }
    true
}

/// Tells whether data can be given to [`parse_sarc`]; see
/// [`is_safe_archive`].
pub fn check_archive(data: &[u8]) -> (r: bool)
    ensures
        r == is_safe_archive(data@),
{
    let big: bool = !is_headed(data, true) || is_listable(data, true);
    let little: bool = !is_headed(data, false) || is_listable(data, false);
    proof {
        assert(big == (headed(data@, true) ==> listable(data@, true, 0)));
        assert(little == (headed(data@, false) ==> listable(data@, false, 0)));
        assert forall|b: bool| big && little && #[trigger] headed(data@, b) implies listable(
            data@,
            b,
            0,
        ) by {
            if b {
            } else {
            }
        }
    }
    big && little
}

/// A text without the `.msbt` endings, however many it has.
pub open spec fn without_endings(s: Seq<char>) -> Seq<char>
    decreases s.len(),
{
    if s.len() >= 5 && ".msbt"@.is_suffix_of(s) {
        without_endings(s.take(s.len() - 5))
    } else {
        s
    }
}

/// The message files in a listing: stem and contents of each file whose name
/// ends in `.msbt`.
pub open spec fn message_files(files: Seq<FileModel>) -> Seq<(Seq<char>, Seq<u8>)>
    decreases files.len(),
{
    if files.len() == 0 {
        Seq::empty()
    } else {
        let before = message_files(files.drop_last());
        match files.last().0 {
            Some(name) => if ".msbt"@.is_suffix_of(name) {
                before.push((without_endings(name), files.last().1))
            } else {
                before
            },
            None => before,
        }
    }
}

/// The language code in the first stem that has one.
pub open spec fn first_code(files: Seq<(Seq<char>, Seq<u8>)>) -> Option<Seq<char>>
    decreases files.len(),
{
    if files.len() == 0 {
        None
    } else {
        match first_code(files.drop_last()) {
            Some(code) => Some(code),
            None => language::segment_code(files.last().0),
        }
    }
}

/// The language of message files, `unknown` where no stem tells one.
pub open spec fn files_language(files: Seq<(Seq<char>, Seq<u8>)>) -> Seq<char> {
    match first_code(files) {
        Some(code) => code,
        None => "unknown"@,
    }
}

/// A message file out of an archive, not yet decoded.
pub struct MessageFile {
    /// Its name without the `.msbt` ending.
    pub stem: String,
    /// Its contents, in the MSBT format.
    pub data: Vec<u8>,
}

impl MessageFile {
    /// The file's stem and contents.
    pub open spec fn view(&self) -> (Seq<char>, Seq<u8>) {
        (self.stem@, self.data@)
    }
}

/// What a list of message files holds.
pub open spec fn message_list(files: Seq<MessageFile>) -> Seq<(Seq<char>, Seq<u8>)> {
    files.map_values(|f: MessageFile| f@)
}

/// The message files of an archive.
pub struct SarcMessages {
    /// Language code out of the file names, or `unknown`.
    pub language: String,
    /// The message files, in the order of the archive.
    pub files: Vec<MessageFile>,
}

/// Takes the `.msbt` endings off a name.
fn strip_endings(name: &str) -> (r: String)
    ensures
        r@ == without_endings(name@),
{
    let chars = text::chars_of(name);
    let mut len: usize = chars.len();
    proof {
        reveal_strlit(".msbt");
        assert(name@.take(len as int) =~= name@);
    }
    while len >= 5 && chars[len - 5] == '.' && chars[len - 4] == 'm' && chars[len - 3] == 's'
        && chars[len - 2] == 'b' && chars[len - 1] == 't'
        invariant
            len <= chars@.len(),
            chars@ == name@,
            ".msbt"@ == seq!['.', 'm', 's', 'b', 't'],
            without_endings(name@) == without_endings(name@.take(len as int)),
        decreases len,
    {
        let ghost s = name@.take(len as int);
        assert(".msbt"@ =~= s.subrange(s.len() - 5, s.len() as int));
        assert(s.take(s.len() - 5) =~= name@.take(len - 5));
        len = len - 5;
    }
    proof {
        let s = name@.take(len as int);
        if s.len() >= 5 && ".msbt"@.is_suffix_of(s) {
            let end = s.subrange(s.len() - 5, s.len() as int);
            assert(end[0] == ".msbt"@[0] && end[1] == ".msbt"@[1] && end[2] == ".msbt"@[2] && end[3]
                == ".msbt"@[3] && end[4] == ".msbt"@[4]);
        }
    }
    let stem = name.substring_char(0, len);
    assert(stem@ =~= name@.take(len as int));
    stem.to_owned()
}

/// Picks the message files out of the files of an archive.
///
/// These are the files whose name ends in `.msbt`. The language is told by
/// the first of their stems that has a language code as its second segment.
pub fn collect_messages(files: Vec<ArchiveFile>) -> (r: SarcMessages)
    ensures
        message_list(r.files@) == message_files(file_list(files@)),
        r.language@ == files_language(message_files(file_list(files@))),
{
    let ghost all = file_list(files@);
    let mut found: Vec<MessageFile> = Vec::new();
    let mut code: Option<String> = None;
    assert(all.take(0) =~= Seq::empty());
    assert(message_list(found@) =~= Seq::empty());
    for file in it: files.into_iter()
        invariant
            it.seq() == files@,
            all == file_list(files@),
            message_list(found@) == message_files(all.take(it.index())),
            match code {
                Some(c) => first_code(message_list(found@)) == Some(c@),
                None => first_code(message_list(found@)) is None,
            },
    {
        let ghost k = it.index();
        let ghost before = found@;
        assert(all.take(k + 1).drop_last() =~= all.take(k));
        assert(all.take(k + 1).last() == file@);
        proof {
            reveal_strlit(".msbt");
        }
        match file.name {
            Some(name) => if text::ends_with_ascii(name.as_str(), ".msbt") {
                let stem = strip_endings(name.as_str());
                if code.is_none() {
                    code = language::language_code(stem.as_str());
                }
                let message = MessageFile { stem, data: file.data };
                found.push(message);
                assert(message_list(found@) =~= message_list(before).push(message@));
                assert(message_list(found@).drop_last() =~= message_list(before));
            },
            None => {},
        }
    }
    assert(all.take(all.len() as int) =~= all);
    let language = match code {
        Some(c) => c,
        None => "unknown".to_owned(),
    };
    SarcMessages { language, files: found }
}

/// Whether a result is that of reading an archive: its message files, or an
/// error, which data without the headers of an archive always gives.
pub open spec fn is_reading(data: Seq<u8>, r: Result<SarcMessages, MessageError>) -> bool {
    match r {
        Ok(m) => {
            let files = message_files(archive_listing(data));
            &&& headed(data, true) || headed(data, false)
            &&& message_list(m.files@) == files
            &&& m.language@ == files_language(files)
        },
        Err(e) => e is Sarc,
    }
}

/// Reads the message files out of a SARC archive that has no Yaz0 layer around
/// it; see [`collect_messages`].
///
/// Fails if the data is not an archive.
pub fn read_archive(data: &[u8]) -> (r: Result<SarcMessages, MessageError>)
    requires
        !compression::is_yaz0(data@),
        is_safe_archive(data@),
    ensures
        is_reading(data@, r),
{
    match archive_files(data) {
        Ok(files) => Ok(collect_messages(files)),
        Err(e) => Err(MessageError::Sarc(e)),
    }
}

/// What data turns out to be that is read as an archive.
pub enum Archive {
    /// An archive, with these message files.
    Messages(SarcMessages),
    /// Yaz0-compressed data. That layer is still to be taken off; what comes
    /// out goes to [`read_archive`].
    Yaz0,
}

/// Reads the message files out of a SARC archive, or finds a Yaz0 layer around
/// it.
pub fn parse_sarc(data: &[u8]) -> (r: Result<Archive, MessageError>)
    requires
        is_safe_archive(data@),
    ensures
        match r {
            Ok(Archive::Yaz0) => compression::is_yaz0(data@),
            Ok(Archive::Messages(m)) => !compression::is_yaz0(data@) && is_reading(data@, Ok(m)),
            Err(e) => !compression::is_yaz0(data@) && is_reading(data@, Err(e)),
        },
{
    if compression::is_yaz0_data(data) {
        return Ok(Archive::Yaz0);
    }
    match read_archive(data) {
        Ok(messages) => Ok(Archive::Messages(messages)),
        Err(e) => Err(e),
    }
}

/// Nothing of the ending is left in a stem.
pub proof fn stems_have_no_ending(name: Seq<char>)
    ensures
        !".msbt"@.is_suffix_of(without_endings(name)),
    decreases name.len(),
{
    reveal_strlit(".msbt");
    if name.len() >= 5 && ".msbt"@.is_suffix_of(name) {
        stems_have_no_ending(name.take(name.len() - 5));
    }
}

/// The language of message files is a code of four bytes or `unknown`.
pub proof fn language_is_code_or_unknown(files: Seq<(Seq<char>, Seq<u8>)>)
    ensures
        encode_utf8(files_language(files)).len() == 4 || files_language(files) == "unknown"@,
{
    lemma_first_code(files);
}

proof fn lemma_first_code(files: Seq<(Seq<char>, Seq<u8>)>)
    ensures
        first_code(files) matches Some(code) ==> encode_utf8(code).len() == 4,
    decreases files.len(),
{
    if files.len() > 0 {
        lemma_first_code(files.drop_last());
    }
}

/// Whether a file of an archive has a name that ends in `.msbt`.
pub open spec fn ends_in_msbt(file: FileModel) -> bool {
    file.0 matches Some(name) && name.len() >= 5 && name.subrange(
        name.len() - 5,
        name.len() as int,
    ) == seq!['.', 'm', 's', 'b', 't']
}

/// How many of the first `upto` files have a name that ends in `.msbt`.
pub open spec fn msbt_count(files: Seq<FileModel>, upto: int) -> int
    decreases upto,
{
    if upto <= 0 {
        0
    } else {
        msbt_count(files, upto - 1) + if ends_in_msbt(files[upto - 1]) {
            1int
        } else {
            0
        }
    }
}

/// The ending `.msbt`, `k` times over.
pub open spec fn endings(k: nat) -> Seq<char>
    decreases k,
{
    if k == 0 {
        Seq::empty()
    } else {
        endings((k - 1) as nat) + seq!['.', 'm', 's', 'b', 't']
    }
}

/// The message files of an archive are its files with a name that ends in
/// `.msbt`, all of them, in their order, with their contents. The stems are
/// those of [`names_are_stems_with_endings`].
pub proof fn message_files_are_all_msbt(files: Seq<FileModel>)
    ensures
        message_files(files).len() == msbt_count(files, files.len() as int),
        forall|i: int|
            0 <= i < files.len() && ends_in_msbt(#[trigger] files[i]) ==> {
                &&& 0 <= msbt_count(files, i) < message_files(files).len()
                &&& message_files(files)[msbt_count(files, i)].1 == files[i].1
                &&& message_files(files)[msbt_count(files, i)].0 == without_endings(files[i].0->0)
            },
    decreases files.len(),
{
    reveal_strlit(".msbt");
    if files.len() > 0 {
        let shorter = files.drop_last();
        let n = files.len() - 1;
        message_files_are_all_msbt(shorter);
        lemma_msbt_count(files, shorter, n);
        lemma_msbt_count_grows(shorter, n);
        let file = files.last();
        assert(file == files[n]);
        if let Some(name) = file.0 {
            assert(".msbt"@ =~= seq!['.', 'm', 's', 'b', 't']);
            assert(".msbt"@.is_suffix_of(name) == ends_in_msbt(file));
        }
        assert forall|i: int| 0 <= i < files.len() && ends_in_msbt(#[trigger] files[i]) implies {
            &&& 0 <= msbt_count(files, i) < message_files(files).len()
            &&& message_files(files)[msbt_count(files, i)].1 == files[i].1
            &&& message_files(files)[msbt_count(files, i)].0 == without_endings(files[i].0->0)
        } by {
            if i < n {
                assert(shorter[i] == files[i]);
                lemma_msbt_count(files, shorter, i);
            }
        }
    }
}

proof fn lemma_msbt_count(a: Seq<FileModel>, b: Seq<FileModel>, upto: int)
    requires
        0 <= upto <= b.len() <= a.len(),
        forall|i: int| 0 <= i < upto ==> (#[trigger] a[i]) == b[i],
    ensures
        msbt_count(a, upto) == msbt_count(b, upto),
    decreases upto,
{
    if upto > 0 {
        lemma_msbt_count(a, b, upto - 1);
        assert(a[upto - 1] == b[upto - 1]);
    }
}

proof fn lemma_msbt_count_grows(files: Seq<FileModel>, upto: int)
    ensures
        msbt_count(files, upto) >= 0,
    decreases upto,
{
    if upto > 0 {
        lemma_msbt_count_grows(files, upto - 1);
    }
}

/// The name of a message file is its stem followed by `.msbt`, at least once,
/// and the stem does not end so any more. So files with different names and
/// one ending have different stems, whatever folders they lie in.
pub proof fn names_are_stems_with_endings(name: Seq<char>) -> (k: nat)
    ensures
        name == without_endings(name) + endings(k),
        name.len() >= 5 && name.subrange(name.len() - 5, name.len() as int) == seq![
            '.',
            'm',
            's',
            'b',
            't',
        ] ==> k >= 1,
        without_endings(name).len() >= 5 ==> without_endings(name).subrange(
            without_endings(name).len() - 5,
            without_endings(name).len() as int,
        ) != seq!['.', 'm', 's', 'b', 't'],
    decreases name.len(),
{
    reveal_strlit(".msbt");
    let ending = seq!['.', 'm', 's', 'b', 't'];
    assert(".msbt"@ =~= ending);
    if name.len() >= 5 && ".msbt"@.is_suffix_of(name) {
        let front = name.take(name.len() - 5);
        let k = names_are_stems_with_endings(front);
        assert(name =~= front + ending);
        assert(endings(k + 1) =~= endings(k) + ending);
        assert(name =~= without_endings(name) + endings(k + 1));
        k + 1
    } else {
        assert(name =~= without_endings(name) + endings(0));
        0
    }
}

/// Each message file keeps its name but for the endings: the name in the
/// archive is the stem followed by `.msbt`, once or more, and the stem does not
/// end so any more. Nothing else is taken off, such as a folder.
pub proof fn message_files_keep_their_names(files: Seq<FileModel>, index: int)
    requires
        0 <= index < files.len(),
        ends_in_msbt(files[index]),
    ensures
        0 <= msbt_count(files, index) < message_files(files).len(),
        ({
            let stem = message_files(files)[msbt_count(files, index)].0;
            &&& exists|k: nat| k >= 1 && files[index].0 == Some(stem + #[trigger] endings(k))
            &&& !ends_in_msbt((Some(stem), Seq::empty()))
        }),
{
    message_files_are_all_msbt(files);
    let k = names_are_stems_with_endings(files[index].0->0);
    assert(files[index].0 == Some(
        message_files(files)[msbt_count(files, index)].0 + endings(k),
    ));
}

/// A name with one ending has the rest for its stem, so that two names with one
/// ending and the same stem are the same.
pub proof fn stems_tell_names_apart(a: Seq<char>, b: Seq<char>)
    requires
        !".msbt"@.is_suffix_of(a),
        !".msbt"@.is_suffix_of(b),
    ensures
        without_endings(a + ".msbt"@) == a,
        without_endings(a + ".msbt"@) == without_endings(b + ".msbt"@) ==> a == b,
{
    reveal_strlit(".msbt");
    reveal_with_fuel(without_endings, 3);
    let x = a + ".msbt"@;
    let y = b + ".msbt"@;
    assert(x.take(x.len() - 5) =~= a);
    assert(y.take(y.len() - 5) =~= b);
    assert(".msbt"@ =~= x.subrange(x.len() - 5, x.len() as int));
    assert(".msbt"@ =~= y.subrange(y.len() - 5, y.len() as int));
}

/// The language of message files is that of the first stem with a language
/// code.
pub proof fn first_code_decides(files: Seq<(Seq<char>, Seq<u8>)>, index: int)
    requires
        0 <= index < files.len(),
        language::segment_code(files[index].0) is Some,
        forall|j: int| 0 <= j < index ==> language::segment_code((#[trigger] files[j]).0) is None,
    ensures
        files_language(files) == language::segment_code(files[index].0)->0,
{
    lemma_first_code_at(files, index);
}

/// The language of message files is `unknown` where no stem has a code.
pub proof fn unknown_without_codes(files: Seq<(Seq<char>, Seq<u8>)>)
    requires
        forall|j: int|
            0 <= j < files.len() ==> language::segment_code((#[trigger] files[j]).0) is None,
    ensures
        files_language(files) == "unknown"@,
{
    lemma_no_code(files);
}

proof fn lemma_no_code(files: Seq<(Seq<char>, Seq<u8>)>)
    requires
        forall|j: int|
            0 <= j < files.len() ==> language::segment_code((#[trigger] files[j]).0) is None,
    ensures
        first_code(files) is None,
    decreases files.len(),
{
    if files.len() > 0 {
        lemma_no_code(files.drop_last());
        assert(files.last() == files[files.len() - 1]);
    }
}

proof fn lemma_first_code_at(files: Seq<(Seq<char>, Seq<u8>)>, index: int)
    requires
        0 <= index < files.len(),
        language::segment_code(files[index].0) is Some,
        forall|j: int| 0 <= j < index ==> language::segment_code((#[trigger] files[j]).0) is None,
    ensures
        first_code(files) == language::segment_code(files[index].0),
    decreases files.len(),
{
    let before = files.drop_last();
    if index < files.len() - 1 {
        assert(before[index] == files[index]);
        lemma_first_code_at(before, index);
    } else {
        lemma_no_code(before);
        assert(files.last() == files[index]);
    }
}

/// What looks like an archive has at least 0x21 bytes, and the four letters
/// `SARC` at its start or after 0x11 bytes.
pub proof fn archives_show_their_letters(data: Seq<u8>)
    ensures
        looks_like_sarc(data) <==> data.len() >= 0x21 && (data.subrange(0, 4) == seq![
            83u8,
            65,
            82,
            67,
        ] || data.subrange(17, 21) == seq![83u8, 65, 82, 67]),
{
    let letters = seq![83u8, 65, 82, 67];
    if data.len() >= 0x21 {
        let a = data.subrange(0, 4);
        let b = data.subrange(17, 21);
        if tag_at(data, 0, 0x53, 0x41, 0x52, 0x43) {
            assert(a =~= letters);
        }
        if a == letters {
            assert(a[0] == 83 && a[1] == 65 && a[2] == 82 && a[3] == 67);
        }
        if tag_at(data, 0x11, 0x53, 0x41, 0x52, 0x43) {
            assert(b =~= letters);
        }
        if b == letters {
            assert(b[0] == 83 && b[1] == 65 && b[2] == 82 && b[3] == 67);
        }
    }
}

/// Whether the file at `index` can be read: its contents lie within the data,
/// and its name, if it has one, ends there and is UTF-8.
pub open spec fn is_readable(data: Seq<u8>, big: bool, index: int) -> bool {
    let record = 32 + 16 * index;
    let start = word_at(data, big, 12);
    let begin = start + word_at(data, big, record + 8);
    let end = start + word_at(data, big, record + 12);
    let offset = word_at(data, big, record + 4);
    let name = 40 + 16 * short_at(data, big, 26) + 4 * (offset % 16777216);
    &&& begin <= end <= data.len()
    &&& offset != 0 ==> name_reads(data, name as int)
}

/// An archive lists a file for each record: as far as its files can be read,
/// the file at each place has the contents between the two positions that its
/// record states, counted from where the contents start.
pub proof fn files_have_their_contents(data: Seq<u8>, big: bool, index: int)
    requires
        0 <= index < short_at(data, big, 26),
        forall|i: int| 0 <= i <= index ==> #[trigger] is_readable(data, big, i),
    ensures
        index < listing(data, big, 0).len() <= short_at(data, big, 26),
        ({
            let record = 32 + 16 * index;
            let start = word_at(data, big, 12);
            let begin = start + word_at(data, big, record + 8);
            let end = start + word_at(data, big, record + 12);
            let file = listing(data, big, 0)[index];
            &&& file.1 == data.subrange(begin as int, end as int)
            &&& file.0 is Some <==> word_at(data, big, record + 4) != 0
        }),
{
    lemma_listing(data, big, 0, index);
    lemma_listing_len(data, big, 0);
}

proof fn lemma_listing(data: Seq<u8>, big: bool, from: int, index: int)
    requires
        0 <= from <= index < file_count(data, big),
        forall|i: int| from <= i <= index ==> #[trigger] is_readable(data, big, i),
    ensures
        index - from < listing(data, big, from).len(),
        listing(data, big, from)[index - from] == (
            file_name(data, big, index),
            data.subrange(contents_begin(data, big, index), contents_end(data, big, index)),
        ),
    decreases index - from,
{
    assert(is_readable(data, big, from));
    if from < index {
        lemma_listing(data, big, from + 1, index);
    }
}

proof fn lemma_listing_len(data: Seq<u8>, big: bool, from: int)
    requires
        0 <= from <= file_count(data, big),
    ensures
        listing(data, big, from).len() <= file_count(data, big) - from,
    decreases file_count(data, big) - from,
{
    if from < file_count(data, big) {
        lemma_listing_len(data, big, from + 1);
    }
}

/// A name that is read ends before a zero byte and has none in it.
pub proof fn names_end_at_zero(data: Seq<u8>, big: bool, index: int)
    requires
        0 <= index,
        is_readable(data, big, index),
        word_at(data, big, 32 + 16 * index + 4) != 0,
    ensures
        ({
            let start = 40 + 16 * short_at(data, big, 26) + 4 * (word_at(
                data,
                big,
                32 + 16 * index + 4,
            ) % 16777216);
            exists|end: int|
                {
                    &&& start <= end < data.len()
                    &&& data[end] == 0
                    &&& forall|j: int| start <= j < end ==> (#[trigger] data[j]) != 0
                    &&& file_name(data, big, index) == Some(
                        decode_utf8(#[trigger] data.subrange(start as int, end)),
                    )
                }
        }),
{
    let start = name_start(data, big, index);
    lemma_first_zero(data, start);
    let end = first_zero(data, start);
    assert(file_name(data, big, index) == Some(decode_utf8(data.subrange(start, end))));
}

proof fn lemma_first_zero(data: Seq<u8>, from: int)
    requires
        0 <= from,
    ensures
        from <= data.len() ==> from <= first_zero(data, from) <= data.len(),
        forall|j: int| from <= j < first_zero(data, from) ==> (#[trigger] data[j]) != 0 || j
            >= data.len(),
        first_zero(data, from) < data.len() ==> from <= first_zero(data, from) && data[first_zero(
            data,
            from,
        )] == 0,
    decreases data.len() - from,
{
    if from < data.len() && data[from] != 0 {
        lemma_first_zero(data, from + 1);
    }
}

/// Numbers in an archive are read in its byte order.
pub proof fn numbers_by_byte_order(data: Seq<u8>, at: int)
    ensures
        short_at(data, true, at) == data[at] * 256 + data[at + 1],
        short_at(data, false, at) == data[at] + data[at + 1] * 256,
        word_at(data, true, at) == data[at] * 16777216 + data[at + 1] * 65536 + data[at + 2] * 256
            + data[at + 3],
        word_at(data, false, at) == data[at] + data[at + 1] * 256 + data[at + 2] * 65536 + data[at
            + 3] * 16777216,
{
}

/// What lists of files hold are the names and contents of the files, each in
/// its place.
pub proof fn lists_hold_their_files(files: Seq<ArchiveFile>, messages: Seq<MessageFile>)
    ensures
        file_list(files).len() == files.len(),
        forall|i: int|
            0 <= i < files.len() ==> {
                &&& (#[trigger] file_list(files)[i]).1 == files[i].data@
                &&& files[i].name is None <==> file_list(files)[i].0 is None
                &&& files[i].name is Some ==> file_list(files)[i].0 == Some((files[i].name->0)@)
            },
        message_list(messages).len() == messages.len(),
        forall|i: int|
            0 <= i < messages.len() ==> (#[trigger] message_list(messages)[i]).0
                == messages[i].stem@ && message_list(messages)[i].1 == messages[i].data@,
{
}

/// What the headers of an archive state, field by field: the three tags, the
/// byte-order mark, the lengths of the headers, the version, the number of
/// files, and that the contents do not start before the end of the names'
/// header.
pub proof fn headers_by_field(data: Seq<u8>, big: bool)
    ensures
        headed(data, big) <==> {
            let count = short_at(data, big, 26) as int;
            &&& data.len() >= 40 + 16 * count
            &&& data.subrange(0, 4) == seq![83u8, 65, 82, 67]
            &&& short_at(data, big, 4) == 20
            &&& data.subrange(6, 8) == seq![254u8, 255] || data.subrange(6, 8) == seq![255u8, 254]
            &&& word_at(data, big, 12) >= 40 + 16 * count
            &&& short_at(data, big, 16) == 256
            &&& data.subrange(20, 24) == seq![83u8, 70, 65, 84]
            &&& short_at(data, big, 24) == 12
            &&& count <= 16383
            &&& data.subrange(32 + 16 * count, 36 + 16 * count) == seq![83u8, 70, 78, 84]
            &&& short_at(data, big, 36 + 16 * count) == 8
        },
{
    let count = short_at(data, big, 26) as int;
    if data.len() >= 40 + 16 * count {
        lemma_tag(data, 0, 83, 65, 82, 67);
        lemma_tag(data, 20, 83, 70, 65, 84);
        lemma_tag(data, 32 + 16 * count, 83, 70, 78, 84);
        let mark = data.subrange(6, 8);
        assert(mark[0] == data[6] && mark[1] == data[7]);
        if mark[0] == 254 && mark[1] == 255 {
            assert(mark =~= seq![254u8, 255]);
        }
        if mark[0] == 255 && mark[1] == 254 {
            assert(mark =~= seq![255u8, 254]);
        }
    }
}

proof fn lemma_tag(data: Seq<u8>, at: int, a: u8, b: u8, c: u8, d: u8)
    requires
        0 <= at <= data.len() - 4,
    ensures
        tag_at(data, at, a, b, c, d) == (data.subrange(at, at + 4) == seq![a, b, c, d]),
{
    let tag = data.subrange(at, at + 4);
    if tag_at(data, at, a, b, c, d) {
        assert(tag =~= seq![a, b, c, d]);
    }
    if tag == seq![a, b, c, d] {
        assert(tag[0] == a && tag[1] == b && tag[2] == c && tag[3] == d);
    }
}

/// Whether the record of the file at `index` leads out of bounds: the name
/// starts beyond the end of the data, or the name, if there is one, can be read
/// and the contents begin or end beyond what 32 bits can count.
pub open spec fn leads_astray(data: Seq<u8>, big: bool, index: int) -> bool {
    let record = 32 + 16 * index;
    let start = word_at(data, big, 12);
    let begin = start + word_at(data, big, record + 8);
    let end = start + word_at(data, big, record + 12);
    let offset = word_at(data, big, record + 4);
    let name = 40 + 16 * short_at(data, big, 26) + 4 * (offset % 16777216);
    if offset != 0 && name > data.len() {
        true
    } else {
        (offset == 0 || name_reads(data, name as int)) && (begin >= 4294967296 || end
            >= 4294967296)
    }
}

/// Data is safe to be read as an archive exactly if, in each byte order in which
/// it has the headers of one, no record leads out of bounds of those up to the
/// first file that cannot be read.
pub proof fn safe_archives_by_record(data: Seq<u8>)
    ensures
        is_safe_archive(data) <==> forall|big: bool, index: int|
            headed(data, big) && 0 <= index < short_at(data, big, 26) && (forall|i: int|
                0 <= i < index ==> #[trigger] is_readable(data, big, i))
                ==> !#[trigger] leads_astray(data, big, index),
{
    lemma_listable(data, true, 0);
    lemma_listable(data, false, 0);
    if is_safe_archive(data) {
        assert forall|big: bool, index: int|
            headed(data, big) && 0 <= index < short_at(data, big, 26) && (forall|i: int|
                0 <= i < index ==> #[trigger] is_readable(data, big, i)) implies
            !#[trigger] leads_astray(data, big, index) by {
            assert(listable(data, big, 0));
            lemma_listable(data, big, 0);
        }
    }
    if forall|big: bool, index: int|
        headed(data, big) && 0 <= index < short_at(data, big, 26) && (forall|i: int|
            0 <= i < index ==> #[trigger] is_readable(data, big, i)) ==> !#[trigger] leads_astray(
            data,
            big,
            index,
        ) {
        assert forall|big: bool| #[trigger] headed(data, big) implies listable(data, big, 0) by {
            lemma_listable(data, big, 0);
        }
    }
}

proof fn lemma_listable(data: Seq<u8>, big: bool, from: int)
    requires
        0 <= from <= file_count(data, big),
    ensures
        listable(data, big, from) <==> forall|index: int|
            from <= index < file_count(data, big) && (forall|i: int|
                from <= i < index ==> #[trigger] is_readable(data, big, i))
                ==> !#[trigger] leads_astray(data, big, index),
    decreases file_count(data, big) - from,
{
    if from < file_count(data, big) {
        lemma_listable(data, big, from + 1);
        let stray = leads_astray(data, big, from);
        let readable = is_readable(data, big, from);
        assert(listable(data, big, from) == (!stray && (readable ==> listable(
            data,
            big,
            from + 1,
        ))));
        if listable(data, big, from) {
            assert forall|index: int|
                from <= index < file_count(data, big) && (forall|i: int|
                    from <= i < index ==> #[trigger] is_readable(data, big, i)) implies
                !#[trigger] leads_astray(data, big, index) by {
                if index > from {
                    assert(is_readable(data, big, from));
                    assert(forall|i: int|
                        from + 1 <= i < index ==> #[trigger] is_readable(data, big, i));
                }
            }
        }
        if forall|index: int|
            from <= index < file_count(data, big) && (forall|i: int|
                from <= i < index ==> #[trigger] is_readable(data, big, i))
                ==> !#[trigger] leads_astray(data, big, index) {
            assert(!leads_astray(data, big, from));
            if readable {
                assert forall|index: int|
                    from + 1 <= index < file_count(data, big) && (forall|i: int|
                        from + 1 <= i < index ==> #[trigger] is_readable(data, big, i)) implies
                    !#[trigger] leads_astray(data, big, index) by {
                    assert forall|i: int| from <= i < index implies #[trigger] is_readable(
                        data,
                        big,
                        i,
                    ) by {
                        if i == from {
                        }
                    }
                }
            }
        }
    }
}

/// An archive is listed up to its first file that cannot be read, in the byte
/// order that its headers are in.
pub proof fn listing_ends_at_unreadable(data: Seq<u8>, index: int)
    requires
        ({
            let big = headed(data, true);
            &&& 0 <= index <= short_at(data, big, 26)
            &&& index < short_at(data, big, 26) ==> !is_readable(data, big, index)
            &&& forall|i: int| 0 <= i < index ==> #[trigger] is_readable(data, big, i)
        }),
    ensures
        archive_listing(data) == listing(data, headed(data, true), 0),
        archive_listing(data).len() == index,
{
    lemma_listing_ends(data, headed(data, true), 0, index);
}

proof fn lemma_listing_ends(data: Seq<u8>, big: bool, from: int, index: int)
    requires
        0 <= from <= index <= file_count(data, big),
        index < file_count(data, big) ==> !is_readable(data, big, index),
        forall|i: int| from <= i < index ==> #[trigger] is_readable(data, big, i),
    ensures
        listing(data, big, from).len() == index - from,
    decreases index - from,
{
    if from < index {
        assert(is_readable(data, big, from));
        lemma_listing_ends(data, big, from + 1, index);
    }
}

/// What is read out of an archive are the message files of its listing, with
/// the language of all their stems. Only data with headers is read, and only the
/// archive reader fails.
pub proof fn readings_hold_the_message_files(
    data: Seq<u8>,
    r: Result<SarcMessages, MessageError>,
)
    requires
        is_reading(data, r),
    ensures
        r is Ok ==> {
            &&& headed(data, true) || headed(data, false)
            &&& message_list((r->Ok_0).files@) == message_files(archive_listing(data))
            &&& (r->Ok_0).language@ == files_language(message_list((r->Ok_0).files@))
        },
        r is Err ==> r->Err_0 is Sarc,
{
}

} // verus!

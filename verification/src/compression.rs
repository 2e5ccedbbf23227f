//! The zstd and Yaz0 layers around message files.
use crate::error::MessageError;
use vstd::prelude::*;
use vstd::slice::slice_to_vec;

verus! {

/// Compression level of everything that is written.
pub const LEVEL: i32 = 8;

/// Whether `zstd::bulk::Decompressor::with_dictionary` takes a dictionary.
pub uninterp spec fn dictionary_loads(dictionary: Seq<u8>) -> bool;

/// What `zstd::bulk::Decompressor::decompress` makes of `data` with a
/// dictionary that loads and with room enough for the result; `None` where it
/// fails.
pub uninterp spec fn dictionary_decoding(dictionary: Seq<u8>, data: Seq<u8>) -> Option<Seq<u8>>;

/// What `zstd::decode_all` makes of `data`; `None` where it fails.
pub uninterp spec fn plain_decoding(data: Seq<u8>) -> Option<Seq<u8>>;

/// What `zstd::bulk::Compressor::compress` makes of `data` at a level and with
/// a dictionary that loads.
pub uninterp spec fn dictionary_encoding(
    level: int,
    dictionary: Seq<u8>,
    data: Seq<u8>,
) -> Seq<u8>;

/// What `zstd::encode_all` makes of `data` at a level.
pub uninterp spec fn plain_encoding(level: int, data: Seq<u8>) -> Seq<u8>;

/// What `data` decompresses to with a dictionary; `None` where the dictionary
/// or the data is no good.
pub open spec fn decoding_with(dictionary: Seq<u8>, data: Seq<u8>) -> Option<Seq<u8>> {
    if dictionary_loads(dictionary) {
        dictionary_decoding(dictionary, data)
    } else {
        None
    }
}

/// Whether `data` starts with the magic number of zstd.
pub open spec fn is_zstd(data: Seq<u8>) -> bool {
    data.len() >= 4 && data.subrange(0, 4) == seq![0x28u8, 0xB5, 0x2F, 0xFD]
}

/// Whether `data` starts with the magic number of Yaz0.
pub open spec fn is_yaz0(data: Seq<u8>) -> bool {
    data.len() >= 4 && data.subrange(0, 4) == seq![0x59u8, 0x61, 0x7A, 0x30]
}

/// Whether data of this length can be compressed: the compressor's worst case
/// has to fit into a buffer.
pub open spec fn compressible(len: nat) -> bool {
    len + len / 256 + 64 <= isize::MAX
}

/// Whether data of this length can be decompressed: the room set aside for
/// the result, 1024 times as much, has to fit into a buffer.
pub open spec fn decompressible(len: nat) -> bool {
    len * 1024 <= isize::MAX
}

/// `data` compressed at the level of everything that is written: with the
/// dictionary, or without one where the dictionary is no good.
pub open spec fn compressed(dictionary: Seq<u8>, data: Seq<u8>) -> Seq<u8> {
    if dictionary_loads(dictionary) {
        dictionary_encoding(LEVEL as int, dictionary, data)
    } else {
        plain_encoding(LEVEL as int, data)
    }
}

/// Whether a dictionary is marked as one and has an identifier, which is then
/// part of each frame that is written with it.
pub open spec fn has_identifier(dictionary: Seq<u8>) -> bool {
    &&& dictionary.len() >= 8
    &&& dictionary.subrange(0, 4) == seq![0x37u8, 0xA4, 0x30, 0xEC]
    &&& dictionary.subrange(4, 8) != seq![0u8, 0, 0, 0]
}

/// Whether `out` is `data` compressed: a zstd frame with the data in it,
/// written with the dictionary, or without one where the dictionary is no
/// good. A frame that was written with an identified dictionary cannot be
/// decompressed without it.
pub open spec fn compression_of(dictionary: Seq<u8>, data: Seq<u8>, out: Seq<u8>) -> bool {
    &&& out == compressed(dictionary, data)
    &&& is_zstd(out)
    &&& if dictionary_loads(dictionary) {
        &&& dictionary_decoding(dictionary, out) == Some(data)
        &&& has_identifier(dictionary) ==> plain_decoding(out) is None
    } else {
        plain_decoding(out) == Some(data)
    }
}

/// Whether `capacity` bytes are sure to be room for decompressing `data` to
/// `result` with a dictionary. The decoders of old formats want 8 bytes to
/// spare; a frame that was written here needs none.
pub open spec fn has_room(
    dictionary: Seq<u8>,
    data: Seq<u8>,
    result: Seq<u8>,
    capacity: nat,
) -> bool {
    result.len() + 8 <= capacity || (result.len() <= capacity && data == dictionary_encoding(
        LEVEL as int,
        dictionary,
        result,
    ))
}

/// What decompressing `data` may come to (`None`: a failure). It is what the
/// dictionary gives, surely so if 1024 times the data is room for that;
/// otherwise, and if the dictionary gives nothing, it is what comes out
/// without a dictionary.
pub open spec fn zstd_outcome(
    dictionary: Seq<u8>,
    data: Seq<u8>,
    outcome: Option<Seq<u8>>,
) -> bool {
    &&& decoding_with(dictionary, data) is None ==> outcome == plain_decoding(data)
    &&& decoding_with(dictionary, data) matches Some(d) ==> {
        &&& has_room(dictionary, data, d, data.len() * 1024) ==> outcome == Some(d)
        &&& outcome == Some(d) || outcome == plain_decoding(data)
    }
}

/// The bytes of a successful result.
pub open spec fn bytes_of(r: Result<Vec<u8>, MessageError>) -> Option<Seq<u8>> {
    match r {
        Ok(bytes) => Some(bytes@),
        Err(_) => None,
    }
}

/// An upper bound on the size of the decompressed data, if one is known.
///
/// Calls `zstd::bulk::Decompressor::upper_bound`. Believed of it: it knows
/// none, as is documented of a build without `zstd`'s `experimental` feature,
/// which this crate does not enable.
#[verifier::external_body]
fn known_bound(data: &[u8]) -> (r: Option<usize>)
    ensures
        r is None,
{
    zstd::bulk::Decompressor::upper_bound(data)
}

/// Decompresses with a dictionary, into at least `capacity` bytes.
///
/// Calls `zstd::bulk::Decompressor::with_dictionary` and `decompress`.
/// Believed of them: what they return depends on the dictionary and the data
/// alone, but that a result may be refused which does not leave 8 of the
/// `capacity` bytes to spare. (Whether it is depends on how much the
/// allocator gave, and on the format of the frame.) One out of a frame that
/// `zstd::bulk::Compressor` wrote is not refused if it fits. Four bytes are too
/// few for a frame.
#[verifier::external_body]
fn dictionary_decompress(dictionary: &[u8], data: &[u8], capacity: usize) -> (r: Option<Vec<u8>>)
    requires
        capacity <= isize::MAX,
    ensures
        r matches Some(out) ==> dictionary_loads(dictionary@) && dictionary_decoding(
            dictionary@,
            data@,
        ) == Some(out@),
        dictionary_loads(dictionary@) ==> (dictionary_decoding(dictionary@, data@) matches Some(d)
            ==> has_room(dictionary@, data@, d, capacity as nat) ==> r is Some),
        data@.len() == 4 ==> r is None,
{
    match zstd::bulk::Decompressor::with_dictionary(dictionary) {
        Ok(mut decompressor) => decompressor.decompress(data, capacity).ok(),
        Err(_) => None,
    }
}

/// Decompresses without a dictionary.
///
/// Calls `zstd::decode_all`. Believed of it: what it returns depends on the
/// data alone. Four bytes are too few for a frame.
#[verifier::external_body]
fn plain_decompress(data: &[u8]) -> (r: Result<Vec<u8>, std::io::Error>)
    ensures
        match r {
            Ok(out) => plain_decoding(data@) == Some(out@),
            Err(_) => plain_decoding(data@) is None,
        },
        data@.len() == 4 ==> r is Err,
{
    zstd::decode_all(data)
}

/// Compresses with a dictionary.
///
/// Calls `zstd::bulk::Compressor::with_dictionary` and `compress`. Believed of
/// them: they take the same dictionaries as the decompressor, which reads the
/// same tables out of them within the same limits, and fail on others only.
/// What they return depends on the level, the dictionary and the data alone,
/// the compressor being a new one. It is a zstd frame, magic number first, and
/// a decompressor with the same dictionary gives the data back. The frame
/// carries the identifier of the dictionary, if that has one, and is then
/// refused by `zstd::decode_all`, which has no dictionary of that identifier.
#[verifier::external_body]
fn dictionary_compress(level: i32, dictionary: &[u8], data: &[u8]) -> (r: Option<Vec<u8>>)
    requires
        compressible(data@.len()),
    ensures
        r is Some == dictionary_loads(dictionary@),
        r matches Some(out) ==> {
            &&& out@ == dictionary_encoding(level as int, dictionary@, data@)
            &&& is_zstd(out@)
            &&& dictionary_decoding(dictionary@, out@) == Some(data@)
            &&& has_identifier(dictionary@) ==> plain_decoding(out@) is None
        },
{
    match zstd::bulk::Compressor::with_dictionary(level, dictionary) {
        Ok(mut compressor) => compressor.compress(data).ok(),
        Err(_) => None,
    }
}

/// Compresses without a dictionary.
///
/// Calls `zstd::encode_all`. Believed of it: it succeeds, reading and writing
/// memory only, and what it returns depends on the level and the data alone.
/// It is a zstd frame, magic number first, which `zstd::decode_all` turns back
/// into the data.
#[verifier::external_body]
fn plain_compress(level: i32, data: &[u8]) -> (r: Result<Vec<u8>, std::io::Error>)
    ensures
        r is Ok,
        r matches Ok(out) ==> {
            &&& out@ == plain_encoding(level as int, data@)
            &&& is_zstd(out@)
            &&& plain_decoding(out@) == Some(data@)
        },
{
    zstd::encode_all(data, level)
}

/// Keeps a first attempt at decompressing `data` if it succeeded, and
/// decompresses without a dictionary otherwise.
pub fn or_plain_decompress(attempt: Option<Vec<u8>>, data: &[u8]) -> (r: Result<
    Vec<u8>,
    MessageError,
>)
    ensures
        match attempt {
            Some(out) => bytes_of(r) == Some(out@),
            None => bytes_of(r) == plain_decoding(data@),
        },
        r matches Err(e) ==> e is Zstd,
        attempt is None && data@.len() == 4 ==> r is Err,
{
    match attempt {
        Some(out) => Ok(out),
        None => match plain_decompress(data) {
            Ok(out) => Ok(out),
            Err(e) => Err(MessageError::Zstd(e)),
        },
    }
}

/// Keeps a first attempt at compressing `data` if it succeeded, and
/// compresses without a dictionary otherwise.
pub fn or_plain_compress(attempt: Option<Vec<u8>>, data: &[u8]) -> (r: Result<
    Vec<u8>,
    MessageError,
>)
    ensures
        match attempt {
            Some(out) => bytes_of(r) == Some(out@),
            None => r matches Ok(out) && {
                &&& out@ == plain_encoding(LEVEL as int, data@)
                &&& is_zstd(out@)
                &&& plain_decoding(out@) == Some(data@)
            },
        },
{
    match attempt {
        Some(out) => Ok(out),
        None => match plain_compress(LEVEL, data) {
            Ok(out) => Ok(out),
            Err(e) => Err(MessageError::Zstd(e)),
        },
    }
}

/// Decompresses zstd data, preferably with the dictionary.
///
/// Without one if the dictionary is no good or decompressing with it fails.
/// Decompressing with it is sure to succeed on good data whose contents are
/// at most 1024 times as long; see [`has_room`].
pub fn zstd_decompress(data: &[u8], dictionary: &[u8]) -> (r: Result<Vec<u8>, MessageError>)
    requires
        decompressible(data@.len()),
    ensures
        zstd_outcome(dictionary@, data@, bytes_of(r)),
        r matches Err(e) ==> e is Zstd,
        data@.len() == 4 ==> r is Err,
{
    let size: usize = match known_bound(data) {
        Some(bound) => bound,
        None => match data.len().checked_mul(1024) {
            Some(size) => size,
            None => usize::MAX,
        },
    };
    let attempt = dictionary_decompress(dictionary, data, size);
    or_plain_decompress(attempt, data)
}

/// Compresses data at level 8, with the dictionary, or without one if the
/// dictionary is no good.
pub fn zstd_compress(data: &[u8], dictionary: &[u8]) -> (r: Result<Vec<u8>, MessageError>)
    requires
        compressible(data@.len()),
    ensures
        r matches Ok(out) && compression_of(dictionary@, data@, out@),
{
    let attempt = dictionary_compress(LEVEL, dictionary, data);
    or_plain_compress(attempt, data)
}

/// Data after the zstd layer.
pub enum Decompressed {
    /// It is a message file.
    Plain(Vec<u8>),
    /// It is Yaz0-compressed in turn.
    Yaz0(Vec<u8>),
}

/// Compares the first four bytes.
fn starts_with_magic(data: &[u8], a: u8, b: u8, c: u8, d: u8) -> (r: bool)
    ensures
        r == (data@.len() >= 4 && data@.subrange(0, 4) == seq![a, b, c, d]),
{
    let r = data.len() >= 4 && data[0] == a && data[1] == b && data[2] == c && data[3] == d;
    proof {
        if r {
            assert(data@.subrange(0, 4) =~= seq![a, b, c, d]);
        } else if data@.len() >= 4 {
            let first = data@.subrange(0, 4);
            let magic = seq![a, b, c, d];
            assert(first[0] != magic[0] || first[1] != magic[1] || first[2] != magic[2] || first[3]
                != magic[3]);
        }
    }
    r
}

/// Tells whether data is still Yaz0-compressed.
pub fn sort_out_yaz0(data: Vec<u8>) -> (r: Decompressed)
    ensures
        match r {
            Decompressed::Yaz0(d) => is_yaz0(data@) && d@ == data@,
            Decompressed::Plain(d) => !is_yaz0(data@) && d@ == data@,
        },
{
    if is_yaz0_data(data.as_slice()) {
        Decompressed::Yaz0(data)
    } else {
        Decompressed::Plain(data)
    }
}

/// The bytes inside, whichever way they go on.
pub open spec fn contents_of(d: Decompressed) -> Seq<u8> {
    match d {
        Decompressed::Plain(data) => data@,
        Decompressed::Yaz0(data) => data@,
    }
}

/// Tells whether a raw message file can be given to [`decompress`].
pub fn check_size(raw: &[u8]) -> (r: bool)
    ensures
        r == (is_zstd(raw@) ==> decompressible(raw@.len())),
{
    let limit: usize = isize::MAX as usize / 1024;
    !starts_with_magic(raw, 0x28, 0xB5, 0x2F, 0xFD) || raw.len() <= limit
}

/// Tells whether data starts with the magic number of Yaz0.
pub fn is_yaz0_data(data: &[u8]) -> (r: bool)
    ensures
        r == is_yaz0(data@),
{
    starts_with_magic(data, 0x59, 0x61, 0x7A, 0x30)
}

/// Takes a raw message file through the zstd layer.
///
/// Data that starts with the magic number of zstd is decompressed, other data
/// is taken as it is. What comes out may start with the magic number of Yaz0;
/// that layer is then still to be taken off.
pub fn decompress(raw: &[u8], dictionary: &[u8]) -> (r: Result<Decompressed, MessageError>)
    requires
        is_zstd(raw@) ==> decompressible(raw@.len()),
    ensures
        r matches Ok(d) ==> (d is Yaz0) == is_yaz0(contents_of(d)),
        r matches Err(e) ==> e is Zstd && is_zstd(raw@),
        !is_zstd(raw@) ==> r is Ok && contents_of(r->Ok_0) == raw@,
        is_zstd(raw@) && raw@.len() == 4 ==> r is Err,
        is_zstd(raw@) ==> zstd_outcome(
            dictionary@,
            raw@,
            match r {
                Ok(d) => Some(contents_of(d)),
                Err(_) => None,
            },
        ),
{
    if starts_with_magic(raw, 0x28, 0xB5, 0x2F, 0xFD) {
        match zstd_decompress(raw, dictionary) {
            Ok(data) => Ok(sort_out_yaz0(data)),
            Err(e) => Err(e),
        }
    } else {
        Ok(sort_out_yaz0(slice_to_vec(raw)))
    }
}

/// Tells whether a dictionary has the size and the magic number that are to
/// be expected of one.
pub fn dictionary_is_intact(dictionary: &[u8]) -> (r: bool)
    ensures
        r == (1024 < dictionary@.len() < 1_048_576 && dictionary@.subrange(0, 4)
            == seq![0x37u8, 0xA4, 0x30, 0xEC]),
{
    dictionary.len() > 1024 && dictionary.len() < 1_048_576 && starts_with_magic(
        dictionary,
        0x37,
        0xA4,
        0x30,
        0xEC,
    )
}

/// Decompression undoes compression. Let `out` be what [`zstd_compress`] made
/// of `data`, and `outcome` what [`zstd_decompress`] makes of that. It is the
/// data again, if the dictionary is no good or 1024 times the frame is room for
/// the data. Without that room it may also be a failure, but with an identified
/// dictionary nothing else.
pub proof fn compression_reads_back(
    dictionary: Seq<u8>,
    data: Seq<u8>,
    out: Seq<u8>,
    outcome: Option<Seq<u8>>,
)
    requires
        compression_of(dictionary, data, out),
        zstd_outcome(dictionary, out, outcome),
    ensures
        !dictionary_loads(dictionary) || data.len() <= out.len() * 1024 ==> outcome == Some(data),
        has_identifier(dictionary) ==> outcome is None || outcome == Some(data),
{
}

/// The magic numbers of zstd and Yaz0, byte by byte.
pub proof fn magic_numbers_by_byte(data: Seq<u8>)
    ensures
        is_zstd(data) <==> data.len() >= 4 && data[0] == 40 && data[1] == 181 && data[2] == 47
            && data[3] == 253,
        is_yaz0(data) <==> data.len() >= 4 && data[0] == 89 && data[1] == 97 && data[2] == 122
            && data[3] == 48,
{
    if data.len() >= 4 {
        let first = data.subrange(0, 4);
        let zstd = seq![40u8, 181, 47, 253];
        let yaz0 = seq![89u8, 97, 122, 48];
        if first[0] == 40 && first[1] == 181 && first[2] == 47 && first[3] == 253 {
            assert(first =~= zstd);
        }
        if first[0] == 89 && first[1] == 97 && first[2] == 122 && first[3] == 48 {
            assert(first =~= yaz0);
        }
    }
}

/// Data is compressed at level 8: with a dictionary that is good the compressor
/// gets it, with another one it gets none.
pub proof fn compression_uses_the_dictionary(dictionary: Seq<u8>, data: Seq<u8>, out: Seq<u8>)
    requires
        compression_of(dictionary, data, out),
    ensures
        dictionary_loads(dictionary) ==> out == dictionary_encoding(8, dictionary, data),
        !dictionary_loads(dictionary) ==> out == plain_encoding(8, data),
        out.len() >= 4 && out[0] == 40 && out[1] == 181 && out[2] == 47 && out[3] == 253,
{
    magic_numbers_by_byte(out);
}

/// Decompressing fails only if there is nothing to be had without a dictionary,
/// and gives only what the dictionary gives or what comes out without one.
/// Where the dictionary gives nothing, that is what comes out.
pub proof fn decompression_gives_one_of_two(
    dictionary: Seq<u8>,
    data: Seq<u8>,
    outcome: Option<Seq<u8>>,
)
    requires
        zstd_outcome(dictionary, data, outcome),
    ensures
        outcome is None ==> plain_decoding(data) is None,
        outcome is Some ==> outcome == plain_decoding(data) || (dictionary_loads(dictionary)
            && outcome == dictionary_decoding(dictionary, data)),
        !dictionary_loads(dictionary) || dictionary_decoding(dictionary, data) is None ==> outcome
            == plain_decoding(data),
        dictionary_loads(dictionary) && dictionary_decoding(dictionary, data) is Some && (
        dictionary_decoding(dictionary, data)->0).len() + 8 <= 1024 * data.len() ==> outcome
            == dictionary_decoding(dictionary, data),
{
}

/// How long data may be: what is decompressed at most a 1024th of the largest
/// buffer, what is compressed as long as a 256th of it more, and 64 bytes, still
/// fit into one.
pub proof fn lengths_have_their_limits(len: nat)
    ensures
        decompressible(len) <==> len <= isize::MAX / 1024,
        compressible(len) <==> exists|k: nat|
            256 * k <= len < 256 * k + 256 && #[trigger] (len + k) + 64 <= isize::MAX,
{
    let k = len / 256;
    assert(256 * k <= len < 256 * k + 256);
}

/// The bytes of a result are those that it holds; an error holds none.
pub proof fn bytes_are_those_of_the_result(r: Result<Vec<u8>, MessageError>, d: Decompressed)
    ensures
        bytes_of(r) is Some <==> r is Ok,
        r is Ok ==> bytes_of(r) == Some((r->Ok_0)@),
        d is Plain ==> contents_of(d) == (d->Plain_0)@,
        d is Yaz0 ==> contents_of(d) == (d->Yaz0_0)@,
{
}

} // verus!

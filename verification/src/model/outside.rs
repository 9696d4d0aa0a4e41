//! Calls into digest, checksum, hexadecimal and compression crates.
use flate2::{FlushDecompress, Status};
use miniz_oxide::inflate::stream::inflate;
use miniz_oxide::{MZError, MZFlush, MZStatus};
use vstd::prelude::*;
use vstd::utf8::{decode_utf8, valid_utf8};
use crate::model::crc::crc32_of;
use crate::model::text::{hex, is_hex, unhex};

verus! {

/// The SHA-1 digest that the `sha1` crate computes.
pub uninterp spec fn sha1_of(data: Seq<u8>) -> Seq<u8>;

/// The SHA-1 digest that the `sha1_smol` crate computes.
pub uninterp spec fn sha1_smol_of(data: Seq<u8>) -> Seq<u8>;

/// The SHA-256 digest that the `sha2` crate computes.
pub uninterp spec fn sha256_of(data: Seq<u8>) -> Seq<u8>;

/// `sha1::Sha1`: the digest of the bytes fed to a fresh hasher.
#[verifier::external_body]
pub(crate) fn sha1(data: &[u8]) -> (id: [u8; 20])
    ensures
        id@ == sha1_of(data@),
{
    let mut h = <sha1::Sha1 as sha1::Digest>::new();
    sha1::Digest::update(&mut h, data);
    sha1::Digest::finalize(h).into()
}

/// `sha1_smol::Sha1`: the digest of the bytes fed to a fresh hasher.
#[verifier::external_body]
pub(crate) fn sha1_smol(data: &[u8]) -> (id: [u8; 20])
    ensures
        id@ == sha1_smol_of(data@),
{
    let mut h = sha1_smol::Sha1::new();
    h.update(data);
    h.digest().bytes()
}

/// `sha2::Sha256`: the digest of the bytes fed to a fresh hasher.
#[verifier::external_body]
pub(crate) fn sha256(data: &[u8]) -> (id: [u8; 32])
    ensures
        id@ == sha256_of(data@),
{
    let mut h = <sha2::Sha256 as sha2::Digest>::new();
    sha2::Digest::update(&mut h, data);
    sha2::Digest::finalize(h).into()
}

/// `crc32fast::hash`: the CRC-32 (IEEE) of the bytes.
#[verifier::external_body]
pub(crate) fn crc32fast_hash(data: &[u8]) -> (crc: u32)
    ensures
        crc == crc32_of(data@),
{
    crc32fast::hash(data)
}

/// `hex::encode`: two lower-case digits for each byte.
#[verifier::external_body]
pub(crate) fn hex_encode(data: &[u8]) -> (s: String)
    ensures
        s@ == hex(data@),
{
    hex::encode(data)
}

/// The text of `hex`'s error on a text that it cannot decode.
pub uninterp spec fn hex_error_text(s: Seq<char>) -> Seq<char>;

/// `hex::decode`: the bytes of pairs of digits of either case; fails on anything else.
#[verifier::external_body]
pub(crate) fn hex_read(s: &str) -> (r: Result<Vec<u8>, String>)
    ensures
        r is Ok <==> is_hex(s@),
        r matches Ok(v) ==> v@ == unhex(s@),
        r matches Err(e) ==> e@ == hex_error_text(s@),
{
    hex::decode(s).map_err(|e| e.to_string())
}

/// The bytes that pairs of digits stand for.
pub(crate) fn hex_decode(s: &str) -> (r: Option<Vec<u8>>)
    ensures
        r is Some <==> is_hex(s@),
        r matches Some(v) ==> v@ == unhex(s@),
{
    match hex_read(s) {
        Ok(v) => Some(v),
        Err(_) => None,
    }
}

/// The text of std's error on bytes that are not UTF-8.
pub uninterp spec fn utf8_error_text(data: Seq<u8>) -> Seq<char>;

/// `std::str::from_utf8`: succeeds on UTF-8 and keeps the bytes.
#[verifier::external_body]
pub(crate) fn utf8_text(data: &[u8]) -> (r: Result<String, String>)
    ensures
        r is Ok <==> valid_utf8(data@),
        r matches Ok(s) ==> s@ == decode_utf8(data@),
        r matches Err(e) ==> e@ == utf8_error_text(data@),
{
    match std::str::from_utf8(data) {
        Ok(s) => Ok(s.to_owned()),
        Err(e) => Err(e.to_string()),
    }
}

/// What std makes of bytes when every ill-formed part is replaced.
pub uninterp spec fn lossy_text(data: Seq<u8>) -> Seq<char>;

/// `String::from_utf8_lossy`: UTF-8 is kept, ill-formed parts are replaced.
#[verifier::external_body]
pub(crate) fn utf8_lossy(data: &[u8]) -> (s: String)
    ensures
        s@ == lossy_text(data@),
        valid_utf8(data@) ==> s@ == decode_utf8(data@),
{
    String::from_utf8_lossy(data).to_string()
}

/// A text without the white space around it.
pub uninterp spec fn trimmed(s: Seq<char>) -> Seq<char>;

/// `str::trim`: leading and trailing white space is removed; hexadecimal digits are not white.
#[verifier::external_body]
pub(crate) fn trim(s: &str) -> (r: String)
    ensures
        r@ == trimmed(s@),
        is_hex(s@) ==> r@ == s@,
{
    s.trim().to_owned()
}

/// The quoted and escaped form of a text.
pub uninterp spec fn debug_text(s: Seq<char>) -> Seq<char>;

/// `{:?}` of a `str`: the quoted and escaped form.
#[verifier::external_body]
pub(crate) fn quoted(s: &str) -> (r: String)
    ensures
        r@ == debug_text(s@),
{
    format!("{:?}", s)
}

/// The zlib stream that `flate2` writes for `data` at its default level.
pub uninterp spec fn zlib_packed(data: Seq<u8>) -> Seq<u8>;

/// `flate2::write::ZlibEncoder` at the default level: the stream depends on the data alone, and
/// has bytes even when the data have none, since it begins with the header of the format.
#[verifier::external_body]
pub(crate) fn zlib_pack(data: &[u8]) -> (z: Vec<u8>)
    ensures
        z@ == zlib_packed(data@),
        z@.len() > 0,
{
    let mut e = flate2::write::ZlibEncoder::new(Vec::new(), flate2::Compression::default());
    std::io::Write::write_all(&mut e, data).unwrap();
    e.finish().unwrap()
}

/// What `flate2::read::ZlibDecoder` reads from the zlib stream at the head of `data`: the content
/// and how many bytes the stream takes, or the text of the error.
pub uninterp spec fn zlib_read_of(data: Seq<u8>) -> Result<(Seq<u8>, nat), Seq<char>>;

/// What `flate2`'s reading decoder made of a source.
pub struct ZlibRead {
    /// Why it failed.
    pub error: Option<String>,
    pub output: Vec<u8>,
    pub consumed: usize,
}

impl View for ZlibRead {
    type V = Result<(Seq<u8>, nat), Seq<char>>;

    open spec fn view(&self) -> Result<(Seq<u8>, nat), Seq<char>> {
        match self.error {
            Some(e) => Err(e@),
            None => Ok((self.output@, self.consumed as nat)),
        }
    }
}

/// What is read of a stream that the encoder wrote for `x`.
pub open spec fn read_whole(x: Seq<u8>) -> Result<(Seq<u8>, nat), Seq<char>> {
    Ok((x, zlib_packed(x).len()))
}

/// `flate2::read::ZlibDecoder`, read to its end: the content and how many bytes of the source the
/// stream takes, or the error. A stream that the encoder wrote is read back whole, whatever follows
/// it. How far the decoder came before an error also depends on how the reading splits its buffer,
/// so only a bound is known of what it had taken by then, and nothing of the output.
#[verifier::external_body]
pub(crate) fn zlib_read(data: &[u8]) -> (r: ZlibRead)
    ensures
        r@ == zlib_read_of(data@),
        r.consumed <= data@.len(),
        forall|x: Seq<u8>| #[trigger]
            zlib_packed(x).is_prefix_of(data@) ==> r@ == read_whole(x),
{
    let mut d = flate2::read::ZlibDecoder::new(data);
    let mut output = Vec::new();
    let error = std::io::Read::read_to_end(&mut d, &mut output).err().map(|e| e.to_string());
    ZlibRead { error, output, consumed: d.total_in() as usize }
}

#[verifier::external_type_specification]
#[verifier::external_body]
pub struct ExDecompress(flate2::Decompress);

/// How a decompression call ended.
#[derive(Debug, Clone, Copy, PartialEq, Eq, Structural)]
pub enum ZlibStatus {
    Going,
    BufError,
    StreamEnd,
    Failed,
}

/// What one decompression call did.
pub struct ZlibCall {
    pub status: ZlibStatus,
    /// The text of the error, when the status is `Failed`.
    pub message: String,
    pub consumed: usize,
    pub produced: Vec<u8>,
}

/// The model of a decompression call.
pub ghost struct ZlibCallModel {
    pub status: ZlibStatus,
    pub message: Seq<char>,
    pub consumed: nat,
    pub produced: Seq<u8>,
}

impl View for ZlibCall {
    type V = ZlibCallModel;

    open spec fn view(&self) -> ZlibCallModel {
        ZlibCallModel {
            status: self.status,
            message: self.message@,
            consumed: self.consumed as nat,
            produced: self.produced@,
        }
    }
}

/// What the last of a series of calls does: each call is given all of `source` that no
/// earlier call consumed, and as much output room as `rooms` says.
pub uninterp spec fn zlib_call(source: Seq<u8>, rooms: Seq<nat>) -> ZlibCallModel;

/// The input that a series of calls consumes.
pub open spec fn zlib_consumed(source: Seq<u8>, rooms: Seq<nat>) -> nat
    decreases rooms.len(),
{
    if rooms.len() == 0 {
        0
    } else {
        zlib_consumed(source, rooms.drop_last()) + zlib_call(source, rooms).consumed
    }
}

/// The output of a series of calls.
pub open spec fn zlib_produced(source: Seq<u8>, rooms: Seq<nat>) -> Seq<u8>
    decreases rooms.len(),
{
    if rooms.len() == 0 {
        Seq::empty()
    } else {
        zlib_produced(source, rooms.drop_last()) + zlib_call(source, rooms).produced
    }
}

/// One zlib stream that is being decompressed.
pub struct ZlibReader {
    raw: flate2::Decompress,
    source: Ghost<Seq<u8>>,
    rooms: Ghost<Seq<nat>>,
}

impl ZlibReader {
    /// The bytes that the stream stands at the head of.
    pub closed spec fn source(self) -> Seq<u8> {
        self.source@
    }

    /// The output room of the calls so far.
    pub closed spec fn rooms(self) -> Seq<nat> {
        self.rooms@
    }

    /// `flate2::Decompress::new` with a zlib header expected: no call was made yet.
    #[verifier::external_body]
    pub(crate) fn start(source: &[u8]) -> (z: ZlibReader)
        ensures
            z.source() == source@,
            z.rooms() == Seq::<nat>::empty(),
    {
        ZlibReader {
            raw: flate2::Decompress::new(true),
            source: Ghost(source@),
            rooms: Ghost(Seq::empty()),
        }
    }

    /// `flate2::Decompress::decompress` without a request to finish: on what is left of `source`,
    /// into `room` fresh bytes.
    ///
    /// The outcome depends on the source and on the room given so far. No call consumes more
    /// than is left, or produces more than there is room for; one that neither ends the stream
    /// nor finds its buffers wanting makes progress. On a stream that the encoder
    /// wrote every call goes on or ends the stream, what was produced is a prefix of what was
    /// compressed, and at the end it is all of it, with the stream consumed.
    #[verifier::external_body]
    pub(crate) fn step(&mut self, source: &[u8], room: usize) -> (r: ZlibCall)
        requires
            source@ == old(self).source(),
            0 < room <= 0x10_0000,
        ensures
            final(self).source() == old(self).source(),
            final(self).rooms() == old(self).rooms().push(room as nat),
            r@ == zlib_call(source@, final(self).rooms()),
            zlib_consumed(source@, final(self).rooms()) <= source@.len(),
            r.produced@.len() <= room,
            r.status == ZlibStatus::Going ==> r.consumed > 0 || r.produced@.len() > 0,
            forall|x: Seq<u8>| #[trigger]
                zlib_packed(x).is_prefix_of(source@)
                    ==> zlib_step_keeps(x, source@, final(self).rooms()),
    {
        let (before, made) = (self.raw.total_in() as usize, self.raw.total_out() as usize);
        let (mut produced, mut message) = (vec![0u8; room], String::new());
        let status = match self.raw.decompress(&source[before..], &mut produced, FlushDecompress::None) {
            Ok(Status::Ok) => ZlibStatus::Going,
            Ok(Status::BufError) => ZlibStatus::BufError,
            Ok(Status::StreamEnd) => ZlibStatus::StreamEnd,
            Err(e) => {
                message = e.to_string();
                ZlibStatus::Failed
            },
        };
        produced.truncate(self.raw.total_out() as usize - made);
        ZlibCall { status, message, consumed: self.raw.total_in() as usize - before, produced }
    }
}

/// One more call adds its own part to what was consumed and produced.
pub proof fn lemma_zlib_push(source: Seq<u8>, rooms: Seq<nat>, room: nat)
    ensures
        zlib_consumed(source, rooms.push(room)) == zlib_consumed(source, rooms)
            + zlib_call(source, rooms.push(room)).consumed,
        zlib_produced(source, rooms.push(room)) == zlib_produced(source, rooms)
            + zlib_call(source, rooms.push(room)).produced,
{
    assert(rooms.push(room).drop_last() =~= rooms);
}

/// What a call does on a stream that `zlib_packed` names.
pub open spec fn zlib_step_keeps(x: Seq<u8>, source: Seq<u8>, rooms: Seq<nat>) -> bool {
    let call = zlib_call(source, rooms);
    &&& call.status == ZlibStatus::Going || call.status == ZlibStatus::StreamEnd
    &&& zlib_produced(source, rooms).is_prefix_of(x)
    &&& zlib_consumed(source, rooms) <= zlib_packed(x).len()
    &&& call.status == ZlibStatus::StreamEnd ==> zlib_produced(source, rooms) == x
        && zlib_consumed(source, rooms) == zlib_packed(x).len()
}

/// The zlib stream that `miniz_oxide` writes for `data` at level 6.
pub uninterp spec fn oxide_packed(data: Seq<u8>) -> Seq<u8>;

/// `miniz_oxide::deflate::compress_to_vec_zlib` at level 6.
#[verifier::external_body]
pub(crate) fn oxide_pack(data: &[u8]) -> (z: Vec<u8>)
    ensures
        z@ == oxide_packed(data@),
{
    miniz_oxide::deflate::compress_to_vec_zlib(data, 6)
}

#[verifier::external_type_specification]
#[verifier::external_body]
pub struct ExDecompressorOxide(miniz_oxide::inflate::core::DecompressorOxide);

/// How a call of the core decompressor ended.
#[derive(Debug, Clone, Copy, PartialEq, Eq, Structural)]
pub enum OxideStatus {
    Done,
    MoreOutput,
    MoreInput,
    Failed,
}

/// What one call of the core decompressor did.
pub struct OxideCall {
    pub status: OxideStatus,
    /// The name of the outcome.
    pub message: String,
    pub consumed: usize,
    pub produced: Vec<u8>,
}

/// The model of a call of the core decompressor.
pub ghost struct OxideCallModel {
    pub status: OxideStatus,
    pub message: Seq<char>,
    pub consumed: nat,
    pub produced: Seq<u8>,
}

impl View for OxideCall {
    type V = OxideCallModel;

    open spec fn view(&self) -> OxideCallModel {
        OxideCallModel {
            status: self.status,
            message: self.message@,
            consumed: self.consumed as nat,
            produced: self.produced@,
        }
    }
}

/// What the last of a series of calls of the core decompressor does: each call is given all of
/// `source` that no earlier call consumed, and as much output room as `rooms` says.
pub uninterp spec fn oxide_call(source: Seq<u8>, rooms: Seq<nat>) -> OxideCallModel;

/// The input that a series of calls consumes.
pub open spec fn oxide_consumed(source: Seq<u8>, rooms: Seq<nat>) -> nat
    decreases rooms.len(),
{
    if rooms.len() == 0 {
        0
    } else {
        oxide_consumed(source, rooms.drop_last()) + oxide_call(source, rooms).consumed
    }
}

/// The output of a series of calls.
pub open spec fn oxide_produced(source: Seq<u8>, rooms: Seq<nat>) -> Seq<u8>
    decreases rooms.len(),
{
    if rooms.len() == 0 {
        Seq::empty()
    } else {
        oxide_produced(source, rooms.drop_last()) + oxide_call(source, rooms).produced
    }
}

/// What a call does on a stream that `oxide_packed` names.
pub open spec fn oxide_step_keeps(x: Seq<u8>, source: Seq<u8>, rooms: Seq<nat>) -> bool {
    let call = oxide_call(source, rooms);
    &&& call.status == OxideStatus::MoreOutput || call.status == OxideStatus::Done
    &&& oxide_produced(source, rooms).is_prefix_of(x)
    &&& oxide_consumed(source, rooms) <= oxide_packed(x).len()
    &&& call.status == OxideStatus::Done ==> oxide_produced(source, rooms) == x && oxide_consumed(
        source,
        rooms,
    ) == oxide_packed(x).len()
}

/// One zlib stream that the core decompressor works on, with all of its output.
pub struct OxideReader {
    raw: miniz_oxide::inflate::core::DecompressorOxide,
    used: usize,
    out: Vec<u8>,
    source: Ghost<Seq<u8>>,
    rooms: Ghost<Seq<nat>>,
}

impl OxideReader {
    /// The bytes that the stream stands at the head of.
    pub closed spec fn source(self) -> Seq<u8> {
        self.source@
    }

    /// The output room of the calls so far.
    pub closed spec fn rooms(self) -> Seq<nat> {
        self.rooms@
    }

    /// `DecompressorOxide::new`: no call was made yet.
    #[verifier::external_body]
    pub(crate) fn start(source: &[u8]) -> (z: OxideReader)
        ensures
            z.source() == source@,
            z.rooms() == Seq::<nat>::empty(),
    {
        OxideReader {
            raw: miniz_oxide::inflate::core::DecompressorOxide::new(),
            used: 0,
            out: Vec::new(),
            source: Ghost(source@),
            rooms: Ghost(Seq::empty()),
        }
    }

    /// `miniz_oxide::inflate::core::decompress` with a zlib header, all of the input at hand and
    /// an output buffer that does not wrap: on what is left of `source`, into `room` more bytes
    /// behind the output so far.
    ///
    /// The outcome depends on the source and on the room given so far. No call consumes more
    /// than is left, or produces more than there is room for; one that asks for more room has
    /// filled what it had. More input is asked for only when the caller holds some back, which
    /// it does not. On a stream that the encoder wrote every call asks for room or is done, what
    /// was produced is a prefix of what was compressed, and at the end it is all of it, with the
    /// stream consumed.
    #[verifier::external_body]
    pub(crate) fn step(&mut self, source: &[u8], room: usize) -> (r: OxideCall)
        requires
            source@ == old(self).source(),
            0 < room <= 0x10_0000,
        ensures
            final(self).source() == old(self).source(),
            final(self).rooms() == old(self).rooms().push(room as nat),
            r@ == oxide_call(source@, final(self).rooms()),
            oxide_consumed(source@, final(self).rooms()) <= source@.len(),
            r.produced@.len() <= room,
            r.status == OxideStatus::MoreOutput ==> r.produced@.len() == room,
            r.status != OxideStatus::MoreInput,
            forall|x: Seq<u8>| #[trigger]
                oxide_packed(x).is_prefix_of(source@) ==> oxide_step_keeps(x, source@, final(self).rooms()),
    {
        let at = self.out.len();
        self.out.resize(at + room, 0);
        let (end, consumed, made) =
            miniz_oxide::inflate::core::decompress(&mut self.raw, &source[self.used..], &mut self.out, at, 5);
        self.used += consumed;
        self.out.truncate(at + made);
        let status = match end {
            miniz_oxide::inflate::TINFLStatus::Done => OxideStatus::Done,
            miniz_oxide::inflate::TINFLStatus::HasMoreOutput => OxideStatus::MoreOutput,
            miniz_oxide::inflate::TINFLStatus::NeedsMoreInput => OxideStatus::MoreInput,
            _ => OxideStatus::Failed,
        };
        OxideCall { status, message: format!("{end:?}"), consumed, produced: self.out[at..].to_vec() }
    }
}

/// One more call adds its own part to what was consumed and produced.
pub proof fn lemma_oxide_push(source: Seq<u8>, rooms: Seq<nat>, room: nat)
    ensures
        oxide_consumed(source, rooms.push(room)) == oxide_consumed(source, rooms) + oxide_call(
            source,
            rooms.push(room),
        ).consumed,
        oxide_produced(source, rooms.push(room)) == oxide_produced(source, rooms) + oxide_call(
            source,
            rooms.push(room),
        ).produced,
{
    assert(rooms.push(room).drop_last() =~= rooms);
}

#[verifier::external_type_specification]
#[verifier::external_body]
pub struct ExInflateState(miniz_oxide::inflate::stream::InflateState);

/// How a call of the stream decompressor ended.
#[derive(Debug, Clone, Copy, PartialEq, Eq, Structural)]
pub enum StreamStatus {
    Going,
    Ended,
    /// No progress could be made, for want of input.
    Stuck,
    Failed,
}

/// What one call of the stream decompressor did.
pub struct StreamCall {
    pub status: StreamStatus,
    /// The name of the outcome.
    pub message: String,
    pub consumed: usize,
    pub produced: Vec<u8>,
}

/// The model of a call of the stream decompressor.
pub ghost struct StreamCallModel {
    pub status: StreamStatus,
    pub message: Seq<char>,
    pub consumed: nat,
    pub produced: Seq<u8>,
}

impl View for StreamCall {
    type V = StreamCallModel;

    open spec fn view(&self) -> StreamCallModel {
        StreamCallModel {
            status: self.status,
            message: self.message@,
            consumed: self.consumed as nat,
            produced: self.produced@,
        }
    }
}

/// What the last of a series of calls of the stream decompressor does: each call is given all
/// of `source` that no earlier call consumed, and as much output room as `rooms` says.
pub uninterp spec fn stream_call(source: Seq<u8>, rooms: Seq<nat>) -> StreamCallModel;

/// The input that a series of calls consumes.
pub open spec fn stream_consumed(source: Seq<u8>, rooms: Seq<nat>) -> nat
    decreases rooms.len(),
{
    if rooms.len() == 0 {
        0
    } else {
        stream_consumed(source, rooms.drop_last()) + stream_call(source, rooms).consumed
    }
}

/// The output of a series of calls.
pub open spec fn stream_produced(source: Seq<u8>, rooms: Seq<nat>) -> Seq<u8>
    decreases rooms.len(),
{
    if rooms.len() == 0 {
        Seq::empty()
    } else {
        stream_produced(source, rooms.drop_last()) + stream_call(source, rooms).produced
    }
}

/// What a call does on a stream that `oxide_packed` names.
pub open spec fn stream_step_keeps(x: Seq<u8>, source: Seq<u8>, rooms: Seq<nat>) -> bool {
    let call = stream_call(source, rooms);
    &&& call.status == StreamStatus::Going || call.status == StreamStatus::Ended
    &&& call.status == StreamStatus::Going ==> call.consumed > 0 || call.produced.len() > 0
    &&& stream_produced(source, rooms).is_prefix_of(x)
    &&& stream_consumed(source, rooms) <= oxide_packed(x).len()
    &&& call.status == StreamStatus::Ended ==> stream_produced(source, rooms) == x && stream_consumed(
        source,
        rooms,
    ) == oxide_packed(x).len()
}

/// One zlib stream that the stream decompressor works on.
pub struct StreamReader {
    raw: Box<miniz_oxide::inflate::stream::InflateState>,
    used: usize,
    source: Ghost<Seq<u8>>,
    rooms: Ghost<Seq<nat>>,
}

impl StreamReader {
    /// The bytes that the stream stands at the head of.
    pub closed spec fn source(self) -> Seq<u8> {
        self.source@
    }

    /// The output room of the calls so far.
    pub closed spec fn rooms(self) -> Seq<nat> {
        self.rooms@
    }

    /// `InflateState::new_boxed` for a stream with a zlib header: no call was made yet.
    #[verifier::external_body]
    pub(crate) fn start(source: &[u8]) -> (z: StreamReader)
        ensures
            z.source() == source@,
            z.rooms() == Seq::<nat>::empty(),
    {
        StreamReader {
            raw: miniz_oxide::inflate::stream::InflateState::new_boxed(miniz_oxide::DataFormat::Zlib),
            used: 0,
            source: Ghost(source@),
            rooms: Ghost(Seq::empty()),
        }
    }

    /// `miniz_oxide::inflate::stream::inflate` without a request to finish: on what is left of
    /// `source`, into `room` bytes.
    ///
    /// The outcome depends on the source and on the room given so far. No call consumes more
    /// than is left, or produces more than there is room for. On a stream that the encoder wrote
    /// every call makes progress or ends, what was produced is a prefix of what was compressed,
    /// and at the end it is all of it, with the stream consumed.
    #[verifier::external_body]
    pub(crate) fn step(&mut self, source: &[u8], room: usize) -> (r: StreamCall)
        requires
            source@ == old(self).source(),
            0 < room <= 0x10_0000,
        ensures
            final(self).source() == old(self).source(),
            final(self).rooms() == old(self).rooms().push(room as nat),
            r@ == stream_call(source@, final(self).rooms()),
            stream_consumed(source@, final(self).rooms()) <= source@.len(),
            r.produced@.len() <= room,
            forall|x: Seq<u8>| #[trigger]
                oxide_packed(x).is_prefix_of(source@) ==> stream_step_keeps(x, source@, final(self).rooms()),
    {
        let mut produced = vec![0u8; room];
        let done = inflate(&mut self.raw, &source[self.used..], &mut produced, MZFlush::None);
        self.used += done.bytes_consumed;
        produced.truncate(done.bytes_written);
        let (status, message) = match done.status {
            Ok(MZStatus::StreamEnd) => (StreamStatus::Ended, String::new()),
            Ok(_) => (StreamStatus::Going, String::new()),
            Err(MZError::Buf) => (StreamStatus::Stuck, format!("{:?}", MZError::Buf)),
            Err(e) => (StreamStatus::Failed, format!("{e:?}")),
        };
        StreamCall { status, message, consumed: done.bytes_consumed, produced }
    }
}

/// One more call adds its own part to what was consumed and produced.
pub proof fn lemma_stream_push(source: Seq<u8>, rooms: Seq<nat>, room: nat)
    ensures
        stream_consumed(source, rooms.push(room)) == stream_consumed(source, rooms) + stream_call(
            source,
            rooms.push(room),
        ).consumed,
        stream_produced(source, rooms.push(room)) == stream_produced(source, rooms) + stream_call(
            source,
            rooms.push(room),
        ).produced,
{
    assert(rooms.push(room).drop_last() =~= rooms);
}

} // verus!

//! The wire layout of a package, as mathematics: what the bytes of a
//! package are, what a byte stream is read as, and the proof that reading
//! undoes writing.
//!
//! All numbers are 32-bit little-endian. A text is its length in bytes and
//! its UTF-8 bytes. A package is laid out as
//!
//! ```text
//! format version
//! text of the new version label
//! number of entries
//! for each entry:  text of the path
//!                  strategy tag, one byte
//!                  length of the payload, payload
//!                  for a raw-subtraction entry: length of the header, header
//! number of removed paths
//! for each removed path: text of the path
//! ```
//!
//! and nothing follows the last removed path.

use vstd::prelude::*;
use vstd::bytes::{lemma_auto_spec_u32_to_from_le_bytes, spec_u32_from_le_bytes, spec_u32_to_le_bytes};
use vstd::utf8::{decode_utf8, decode_utf8_encode_utf8, encode_utf8, encode_utf8_decode_utf8, encode_utf8_valid_utf8, valid_utf8};
use crate::errors::ErrorView;
use crate::package::{DeltaView, PackageView, Strategy, FORMAT_VERSION};

verus! {

/// The longest path, and the longest version label, in bytes of UTF-8.
pub const MAX_PATH_LEN: usize = 4096;

/// The greatest number that a length field holds.
pub const MAX_FIELD: usize = 0xffff_ffff;

/// Tag of [`Strategy::Literal`].
pub const TAG_LITERAL: u8 = 0;

/// Tag of [`Strategy::RawSubtract`].
pub const TAG_RAW_SUBTRACT: u8 = 1;

/// Tag of [`Strategy::GenericBinary`].
pub const TAG_GENERIC_BINARY: u8 = 2;

/// The tag of a strategy.
pub open spec fn tag_of(strategy: Strategy) -> u8 {
    match strategy {
        Strategy::Literal => TAG_LITERAL,
        Strategy::RawSubtract => TAG_RAW_SUBTRACT,
        Strategy::GenericBinary => TAG_GENERIC_BINARY,
    }
}

// ---------------------------------------------------------------------
// Writing
// ---------------------------------------------------------------------
/// The four bytes of a number.
pub open spec fn ser_u32(v: int) -> Seq<u8> {
    spec_u32_to_le_bytes(v as u32)
}

/// A byte string behind its length.
pub open spec fn ser_blob(bytes: Seq<u8>) -> Seq<u8> {
    ser_u32(bytes.len() as int) + bytes
}

/// A text: its UTF-8 bytes behind their length.
pub open spec fn ser_text(text: Seq<char>) -> Seq<u8> {
    ser_blob(encode_utf8(text))
}

/// One entry.
pub open spec fn ser_entry(e: DeltaView) -> Seq<u8> {
    ser_text(e.path) + seq![tag_of(e.strategy)] + ser_blob(e.payload) + if e.strategy
        == Strategy::RawSubtract {
        ser_blob(e.header)
    } else {
        Seq::empty()
    }
}

/// The entries, one after the other.
pub open spec fn ser_entries(entries: Seq<DeltaView>) -> Seq<u8>
    decreases entries.len(),
{
    if entries.len() == 0 {
        Seq::empty()
    } else {
        ser_entry(entries[0]) + ser_entries(entries.drop_first())
    }
}

/// The texts, one after the other.
pub open spec fn ser_texts(texts: Seq<Seq<char>>) -> Seq<u8>
    decreases texts.len(),
{
    if texts.len() == 0 {
        Seq::empty()
    } else {
        ser_text(texts[0]) + ser_texts(texts.drop_first())
    }
}

/// The bytes of a package.
pub open spec fn ser_package(p: PackageView) -> Seq<u8> {
    ser_u32(p.format_version as int) + ser_text(p.new_version) + ser_u32(p.entries.len() as int)
        + ser_entries(p.entries) + ser_u32(p.removed.len() as int) + ser_texts(p.removed)
}

/// A text that the layout can hold.
pub open spec fn text_fits(text: Seq<char>) -> bool {
    encode_utf8(text).len() <= MAX_PATH_LEN
}

/// An entry that the layout can hold, and that reads back as itself: only
/// a raw-subtraction entry has a header.
pub open spec fn entry_fits(e: DeltaView) -> bool {
    &&& text_fits(e.path)
    &&& e.payload.len() <= MAX_FIELD
    &&& e.header.len() <= MAX_FIELD
    &&& e.strategy != Strategy::RawSubtract ==> e.header.len() == 0
}

/// Every entry fits.
pub open spec fn entries_fit(entries: Seq<DeltaView>) -> bool {
    forall|i: int| 0 <= i < entries.len() ==> entry_fits(#[trigger] entries[i])
}

/// Every text fits.
pub open spec fn texts_fit(texts: Seq<Seq<char>>) -> bool {
    forall|i: int| 0 <= i < texts.len() ==> text_fits(#[trigger] texts[i])
}

/// All but the format version of a package fits the layout.
pub open spec fn body_fits(p: PackageView) -> bool {
    &&& text_fits(p.new_version)
    &&& p.entries.len() <= MAX_FIELD
    &&& p.removed.len() <= MAX_FIELD
    &&& entries_fit(p.entries)
    &&& texts_fit(p.removed)
}

/// A package that can be written: it has the format version of this
/// library and fits the layout.
pub open spec fn encodable(p: PackageView) -> bool {
    p.format_version == FORMAT_VERSION && body_fits(p)
}

// ---------------------------------------------------------------------
// Reading
// ---------------------------------------------------------------------
/// Reads a number: the number and what follows it.
pub open spec fn parse_u32(input: Seq<u8>) -> Result<(int, Seq<u8>), ErrorView> {
    if input.len() < 4 {
        Err(ErrorView::CorruptPackage)
    } else {
        Ok((spec_u32_from_le_bytes(input.take(4)) as int, input.skip(4)))
    }
}

/// Reads a byte string of at most `limit` bytes.
pub open spec fn parse_blob(input: Seq<u8>, limit: int) -> Result<(Seq<u8>, Seq<u8>), ErrorView> {
    match parse_u32(input) {
        Err(e) => Err(e),
        Ok((len, rest)) => {
            if len > limit || len > rest.len() {
                Err(ErrorView::CorruptPackage)
            } else {
                Ok((rest.take(len), rest.skip(len)))
            }
        },
    }
}

/// Reads a text.
pub open spec fn parse_text(input: Seq<u8>) -> Result<(Seq<char>, Seq<u8>), ErrorView> {
    match parse_blob(input, MAX_PATH_LEN as int) {
        Err(e) => Err(e),
        Ok((bytes, rest)) => {
            if valid_utf8(bytes) {
                Ok((decode_utf8(bytes), rest))
            } else {
                Err(ErrorView::CorruptPackage)
            }
        },
    }
}

/// Reads a strategy tag.
pub open spec fn parse_tag(input: Seq<u8>) -> Result<(Strategy, Seq<u8>), ErrorView> {
    if input.len() < 1 {
        Err(ErrorView::CorruptPackage)
    } else if input[0] == TAG_LITERAL {
        Ok((Strategy::Literal, input.skip(1)))
    } else if input[0] == TAG_RAW_SUBTRACT {
        Ok((Strategy::RawSubtract, input.skip(1)))
    } else if input[0] == TAG_GENERIC_BINARY {
        Ok((Strategy::GenericBinary, input.skip(1)))
    } else {
        Err(ErrorView::UnsupportedStrategy)
    }
}

/// Reads the header of an entry: present for raw subtraction only.
pub open spec fn parse_header(strategy: Strategy, input: Seq<u8>) -> Result<
    (Seq<u8>, Seq<u8>),
    ErrorView,
> {
    if strategy == Strategy::RawSubtract {
        parse_blob(input, MAX_FIELD as int)
    } else {
        Ok((Seq::empty(), input))
    }
}

/// Reads one entry.
pub open spec fn parse_entry(input: Seq<u8>) -> Result<(DeltaView, Seq<u8>), ErrorView> {
    match parse_text(input) {
        Err(e) => Err(e),
        Ok((path, rest1)) => match parse_tag(rest1) {
            Err(e) => Err(e),
            Ok((strategy, rest2)) => match parse_blob(rest2, MAX_FIELD as int) {
                Err(e) => Err(e),
                Ok((payload, rest3)) => match parse_header(strategy, rest3) {
                    Err(e) => Err(e),
                    Ok((header, rest4)) => Ok(
                        (DeltaView { path, strategy, payload, header }, rest4),
                    ),
                },
            },
        },
    }
}

/// Puts what was read before in front of what is read next.
pub open spec fn after<T>(done: Seq<T>, next: Result<(Seq<T>, Seq<u8>), ErrorView>) -> Result<
    (Seq<T>, Seq<u8>),
    ErrorView,
> {
    match next {
        Err(e) => Err(e),
        Ok((items, rest)) => Ok((done + items, rest)),
    }
}

/// Reads `count` entries.
pub open spec fn parse_entries(input: Seq<u8>, count: nat) -> Result<
    (Seq<DeltaView>, Seq<u8>),
    ErrorView,
>
    decreases count,
{
    if count == 0 {
        Ok((Seq::empty(), input))
    } else {
        match parse_entry(input) {
            Err(e) => Err(e),
            Ok((e, rest)) => after(seq![e], parse_entries(rest, (count - 1) as nat)),
        }
    }
}

/// Reads `count` texts.
pub open spec fn parse_texts(input: Seq<u8>, count: nat) -> Result<
    (Seq<Seq<char>>, Seq<u8>),
    ErrorView,
>
    decreases count,
{
    if count == 0 {
        Ok((Seq::empty(), input))
    } else {
        match parse_text(input) {
            Err(e) => Err(e),
            Ok((t, rest)) => after(seq![t], parse_texts(rest, (count - 1) as nat)),
        }
    }
}

/// Reads what follows the format version.
pub open spec fn parse_body(input: Seq<u8>) -> Result<PackageView, ErrorView> {
    match parse_text(input) {
        Err(e) => Err(e),
        Ok((new_version, rest1)) => match parse_u32(rest1) {
            Err(e) => Err(e),
            Ok((count, rest2)) => match parse_entries(rest2, count as nat) {
                Err(e) => Err(e),
                Ok((entries, rest3)) => match parse_u32(rest3) {
                    Err(e) => Err(e),
                    Ok((removed_count, rest4)) => match parse_texts(rest4, removed_count as nat) {
                        Err(e) => Err(e),
                        Ok((removed, rest5)) => {
                            if rest5.len() == 0 {
                                Ok(
                                    PackageView {
                                        format_version: FORMAT_VERSION,
                                        new_version,
                                        entries,
                                        removed,
                                    },
                                )
                            } else {
                                Err(ErrorView::CorruptPackage)
                            }
                        },
                    },
                },
            },
        },
    }
}

/// Reads a package.
///
/// A stream too short for a format version is corrupt. Another format
/// version than that of this library is refused before anything else is
/// read. Behind it, a length that exceeds what is left or what the layout
/// admits, a text that is not UTF-8, and bytes behind the last removed
/// path make the package corrupt; an unknown tag is an unsupported
/// strategy. The first fault met decides.
pub open spec fn parse_package(input: Seq<u8>) -> Result<PackageView, ErrorView> {
    match parse_u32(input) {
        Err(e) => Err(e),
        Ok((version, rest)) => {
            if version != FORMAT_VERSION {
                Err(ErrorView::UnsupportedFormatVersion)
            } else {
                parse_body(rest)
            }
        },
    }
}

// ---------------------------------------------------------------------
// Reading undoes writing
// ---------------------------------------------------------------------
/// A number is read back.
pub proof fn lemma_u32_round_trip(v: int, rest: Seq<u8>)
    requires
        0 <= v <= MAX_FIELD,
    ensures
        ser_u32(v).len() == 4,
        parse_u32(ser_u32(v) + rest) == Ok::<(int, Seq<u8>), ErrorView>((v, rest)),
{
    lemma_auto_spec_u32_to_from_le_bytes();
    let input = ser_u32(v) + rest;
    assert(input.take(4) =~= ser_u32(v));
    assert(input.skip(4) =~= rest);
}

/// A byte string is read back.
pub proof fn lemma_blob_round_trip(bytes: Seq<u8>, limit: int, rest: Seq<u8>)
    requires
        bytes.len() <= limit <= MAX_FIELD,
    ensures
        parse_blob(ser_blob(bytes) + rest, limit) == Ok::<(Seq<u8>, Seq<u8>), ErrorView>(
            (bytes, rest),
        ),
{
    lemma_u32_round_trip(bytes.len() as int, bytes + rest);
    assert(ser_blob(bytes) + rest =~= ser_u32(bytes.len() as int) + (bytes + rest));
    assert((bytes + rest).take(bytes.len() as int) =~= bytes);
    assert((bytes + rest).skip(bytes.len() as int) =~= rest);
}

/// A text is read back.
pub proof fn lemma_text_round_trip(text: Seq<char>, rest: Seq<u8>)
    requires
        text_fits(text),
    ensures
        parse_text(ser_text(text) + rest) == Ok::<(Seq<char>, Seq<u8>), ErrorView>((text, rest)),
{
    lemma_blob_round_trip(encode_utf8(text), MAX_PATH_LEN as int, rest);
    encode_utf8_valid_utf8(text);
    encode_utf8_decode_utf8(text);
}

/// An entry is read back.
pub proof fn lemma_entry_round_trip(e: DeltaView, rest: Seq<u8>)
    requires
        entry_fits(e),
    ensures
        parse_entry(ser_entry(e) + rest) == Ok::<(DeltaView, Seq<u8>), ErrorView>((e, rest)),
{
    let tail = if e.strategy == Strategy::RawSubtract {
        ser_blob(e.header)
    } else {
        Seq::empty()
    };
    let rest3 = tail + rest;
    let rest2 = ser_blob(e.payload) + rest3;
    let rest1 = seq![tag_of(e.strategy)] + rest2;
    assert(ser_entry(e) + rest =~= ser_text(e.path) + rest1);
    lemma_text_round_trip(e.path, rest1);
    assert(rest1.skip(1) =~= rest2);
    assert(rest1[0] == tag_of(e.strategy));
    lemma_blob_round_trip(e.payload, MAX_FIELD as int, rest3);
    if e.strategy == Strategy::RawSubtract {
        lemma_blob_round_trip(e.header, MAX_FIELD as int, rest);
    } else {
        assert(rest3 =~= rest);
        assert(e.header =~= Seq::empty());
    }
}

/// A list of entries is read back.
pub proof fn lemma_entries_round_trip(entries: Seq<DeltaView>, rest: Seq<u8>)
    requires
        entries_fit(entries),
    ensures
        parse_entries(ser_entries(entries) + rest, entries.len()) == Ok::<
            (Seq<DeltaView>, Seq<u8>),
            ErrorView,
        >((entries, rest)),
    decreases entries.len(),
{
    if entries.len() == 0 {
        assert(ser_entries(entries) + rest =~= rest);
        assert(entries =~= Seq::empty());
    } else {
        let first = entries[0];
        let others = entries.drop_first();
        let tail = ser_entries(others) + rest;
        assert(ser_entries(entries) + rest =~= ser_entry(first) + tail);
        assert(entry_fits(first));
        assert forall|i: int| 0 <= i < others.len() implies entry_fits(#[trigger] others[i]) by {
            assert(others[i] == entries[i + 1]);
        }
        lemma_entry_round_trip(first, tail);
        lemma_entries_round_trip(others, rest);
        assert(seq![first] + others =~= entries);
    }
}

/// A list of texts is read back.
pub proof fn lemma_texts_round_trip(texts: Seq<Seq<char>>, rest: Seq<u8>)
    requires
        texts_fit(texts),
    ensures
        parse_texts(ser_texts(texts) + rest, texts.len()) == Ok::<
            (Seq<Seq<char>>, Seq<u8>),
            ErrorView,
        >((texts, rest)),
    decreases texts.len(),
{
    if texts.len() == 0 {
        assert(ser_texts(texts) + rest =~= rest);
        assert(texts =~= Seq::empty());
    } else {
        let first = texts[0];
        let others = texts.drop_first();
        let tail = ser_texts(others) + rest;
        assert(ser_texts(texts) + rest =~= ser_text(first) + tail);
        assert(text_fits(first));
        assert forall|i: int| 0 <= i < others.len() implies text_fits(#[trigger] others[i]) by {
            assert(others[i] == texts[i + 1]);
        }
        lemma_text_round_trip(first, tail);
        lemma_texts_round_trip(others, rest);
        assert(seq![first] + others =~= texts);
    }
}

/// Reading undoes writing: the bytes of a package that can be written are
/// read as that package. This holds of entries with empty payloads, of
/// paths with any characters, and of paths of exactly [`MAX_PATH_LEN`]
/// bytes.
pub proof fn lemma_package_round_trip(p: PackageView)
    requires
        encodable(p),
    ensures
        parse_package(ser_package(p)) == Ok::<PackageView, ErrorView>(p),
{
    let rest5 = Seq::<u8>::empty();
    let rest4 = ser_texts(p.removed) + rest5;
    let rest3 = ser_u32(p.removed.len() as int) + rest4;
    let rest2 = ser_entries(p.entries) + rest3;
    let rest1 = ser_u32(p.entries.len() as int) + rest2;
    let rest0 = ser_text(p.new_version) + rest1;
    assert(ser_package(p) =~= ser_u32(p.format_version as int) + rest0);
    lemma_u32_round_trip(p.format_version as int, rest0);
    lemma_text_round_trip(p.new_version, rest1);
    lemma_u32_round_trip(p.entries.len() as int, rest2);
    lemma_entries_round_trip(p.entries, rest3);
    lemma_u32_round_trip(p.removed.len() as int, rest4);
    lemma_texts_round_trip(p.removed, rest5);
}

// ---------------------------------------------------------------------
// Writing undoes reading
// ---------------------------------------------------------------------
/// A number that was read is what the stream starts with.
pub proof fn lemma_u32_read(input: Seq<u8>)
    requires
        parse_u32(input) is Ok,
    ensures
        0 <= parse_u32(input)->Ok_0.0 <= MAX_FIELD,
        input == ser_u32(parse_u32(input)->Ok_0.0) + parse_u32(input)->Ok_0.1,
{
    lemma_auto_spec_u32_to_from_le_bytes();
    let (v, rest) = parse_u32(input)->Ok_0;
    assert(input.take(4).len() == 4);
    assert(ser_u32(v) == input.take(4));
    assert(input =~= input.take(4) + input.skip(4));
}

/// A byte string that was read is what the stream starts with.
pub proof fn lemma_blob_read(input: Seq<u8>, limit: int)
    requires
        parse_blob(input, limit) is Ok,
    ensures
        parse_blob(input, limit)->Ok_0.0.len() <= limit,
        parse_blob(input, limit)->Ok_0.0.len() <= MAX_FIELD,
        input == ser_blob(parse_blob(input, limit)->Ok_0.0) + parse_blob(input, limit)->Ok_0.1,
{
    lemma_u32_read(input);
    let (len, rest) = parse_u32(input)->Ok_0;
    let (bytes, tail) = parse_blob(input, limit)->Ok_0;
    assert(rest =~= bytes + tail);
    assert(input =~= ser_blob(bytes) + tail);
}

/// A text that was read fits, and is what the stream starts with.
pub proof fn lemma_text_read(input: Seq<u8>)
    requires
        parse_text(input) is Ok,
    ensures
        text_fits(parse_text(input)->Ok_0.0),
        input == ser_text(parse_text(input)->Ok_0.0) + parse_text(input)->Ok_0.1,
{
    lemma_blob_read(input, MAX_PATH_LEN as int);
    let (bytes, rest) = parse_blob(input, MAX_PATH_LEN as int)->Ok_0;
    decode_utf8_encode_utf8(bytes);
}

/// An entry that was read fits, and is what the stream starts with.
pub proof fn lemma_entry_read(input: Seq<u8>)
    requires
        parse_entry(input) is Ok,
    ensures
        entry_fits(parse_entry(input)->Ok_0.0),
        input == ser_entry(parse_entry(input)->Ok_0.0) + parse_entry(input)->Ok_0.1,
{
    lemma_text_read(input);
    let (path, rest1) = parse_text(input)->Ok_0;
    let (strategy, rest2) = parse_tag(rest1)->Ok_0;
    assert(rest1 =~= seq![tag_of(strategy)] + rest2);
    lemma_blob_read(rest2, MAX_FIELD as int);
    let (payload, rest3) = parse_blob(rest2, MAX_FIELD as int)->Ok_0;
    let (header, rest4) = parse_header(strategy, rest3)->Ok_0;
    if strategy == Strategy::RawSubtract {
        lemma_blob_read(rest3, MAX_FIELD as int);
    }
    let e = DeltaView { path, strategy, payload, header };
    assert(input =~= ser_entry(e) + rest4);
}

/// Entries that were read are as many as were asked for, fit, and are what
/// the stream starts with.
pub proof fn lemma_entries_read(input: Seq<u8>, count: nat)
    requires
        parse_entries(input, count) is Ok,
    ensures
        parse_entries(input, count)->Ok_0.0.len() == count,
        entries_fit(parse_entries(input, count)->Ok_0.0),
        input == ser_entries(parse_entries(input, count)->Ok_0.0) + parse_entries(
            input,
            count,
        )->Ok_0.1,
    decreases count,
{
    if count == 0 {
        assert(input =~= ser_entries(Seq::<DeltaView>::empty()) + input);
    } else {
        lemma_entry_read(input);
        let (e, rest) = parse_entry(input)->Ok_0;
        lemma_entries_read(rest, (count - 1) as nat);
        let (others, tail) = parse_entries(rest, (count - 1) as nat)->Ok_0;
        let all = seq![e] + others;
        assert(all[0] == e);
        assert(all.drop_first() =~= others);
        assert forall|i: int| 0 <= i < all.len() implies entry_fits(#[trigger] all[i]) by {
            if i > 0 {
                assert(all[i] == others[i - 1]);
            }
        }
        assert(input =~= ser_entries(all) + tail);
    }
}

/// Texts that were read are as many as were asked for, fit, and are what
/// the stream starts with.
pub proof fn lemma_texts_read(input: Seq<u8>, count: nat)
    requires
        parse_texts(input, count) is Ok,
    ensures
        parse_texts(input, count)->Ok_0.0.len() == count,
        texts_fit(parse_texts(input, count)->Ok_0.0),
        input == ser_texts(parse_texts(input, count)->Ok_0.0) + parse_texts(input, count)->Ok_0.1,
    decreases count,
{
    if count == 0 {
        assert(input =~= ser_texts(Seq::<Seq<char>>::empty()) + input);
    } else {
        lemma_text_read(input);
        let (t, rest) = parse_text(input)->Ok_0;
        lemma_texts_read(rest, (count - 1) as nat);
        let (others, tail) = parse_texts(rest, (count - 1) as nat)->Ok_0;
        let all = seq![t] + others;
        assert(all[0] == t);
        assert(all.drop_first() =~= others);
        assert forall|i: int| 0 <= i < all.len() implies text_fits(#[trigger] all[i]) by {
            if i > 0 {
                assert(all[i] == others[i - 1]);
            }
        }
        assert(input =~= ser_texts(all) + tail);
    }
}

/// What follows the format version, once read, fits and is what the
/// stream holds.
pub proof fn lemma_body_read(input: Seq<u8>)
    requires
        parse_body(input) is Ok,
    ensures
        body_fits(parse_body(input)->Ok_0),
        parse_body(input)->Ok_0.format_version == FORMAT_VERSION,
        ({
            let p = parse_body(input)->Ok_0;
            input == ser_text(p.new_version) + ser_u32(p.entries.len() as int) + ser_entries(
                p.entries,
            ) + ser_u32(p.removed.len() as int) + ser_texts(p.removed)
        }),
{
    lemma_text_read(input);
    let (new_version, rest1) = parse_text(input)->Ok_0;
    lemma_u32_read(rest1);
    let (count, rest2) = parse_u32(rest1)->Ok_0;
    lemma_entries_read(rest2, count as nat);
    let (entries, rest3) = parse_entries(rest2, count as nat)->Ok_0;
    lemma_u32_read(rest3);
    let (removed_count, rest4) = parse_u32(rest3)->Ok_0;
    lemma_texts_read(rest4, removed_count as nat);
    let (removed, rest5) = parse_texts(rest4, removed_count as nat)->Ok_0;
    assert(rest5 =~= Seq::<u8>::empty());
    let t4 = ser_texts(removed);
    let t3 = ser_u32(removed_count);
    let t2 = ser_entries(entries);
    let t1 = ser_u32(count);
    let t0 = ser_text(new_version);
    assert(rest4 =~= t4);
    assert(rest3 =~= t3 + t4);
    assert(rest2 =~= t2 + (t3 + t4));
    assert(rest1 =~= t1 + (t2 + (t3 + t4)));
    assert(input =~= t0 + (t1 + (t2 + (t3 + t4))));
    assert(t0 + (t1 + (t2 + (t3 + t4))) =~= t0 + t1 + t2 + t3 + t4);
}

/// Writing undoes reading: a package that was read can be written, and
/// its bytes are the bytes that it was read from. So no two byte streams
/// are read as one package.
pub proof fn lemma_package_read(input: Seq<u8>)
    requires
        parse_package(input) is Ok,
    ensures
        encodable(parse_package(input)->Ok_0),
        ser_package(parse_package(input)->Ok_0) == input,
{
    lemma_u32_read(input);
    let (version, rest) = parse_u32(input)->Ok_0;
    lemma_body_read(rest);
    let p = parse_body(rest)->Ok_0;
    let body = ser_text(p.new_version) + ser_u32(p.entries.len() as int) + ser_entries(p.entries)
        + ser_u32(p.removed.len() as int) + ser_texts(p.removed);
    assert(ser_package(p) =~= ser_u32(FORMAT_VERSION as int) + body);
}

/// Appending an entry appends its bytes.
pub proof fn lemma_ser_entries_push(entries: Seq<DeltaView>, e: DeltaView)
    ensures
        ser_entries(entries.push(e)) == ser_entries(entries) + ser_entry(e),
    decreases entries.len(),
{
    if entries.len() == 0 {
        let one = entries.push(e);
        assert(one.drop_first() =~= Seq::<DeltaView>::empty());
        assert(ser_entries(one.drop_first()) =~= Seq::<u8>::empty());
        assert(one[0] == e);
        assert(ser_entries(one) =~= ser_entry(e) + ser_entries(one.drop_first()));
        assert(ser_entries(entries) =~= Seq::<u8>::empty());
        assert(ser_entries(entries.push(e)) =~= ser_entries(entries) + ser_entry(e));
    } else {
        lemma_ser_entries_push(entries.drop_first(), e);
        assert(entries.push(e).drop_first() =~= entries.drop_first().push(e));
        assert(ser_entries(entries.push(e)) =~= ser_entries(entries) + ser_entry(e));
    }
}

/// Appending a text appends its bytes.
pub proof fn lemma_ser_texts_push(texts: Seq<Seq<char>>, t: Seq<char>)
    ensures
        ser_texts(texts.push(t)) == ser_texts(texts) + ser_text(t),
    decreases texts.len(),
{
    if texts.len() == 0 {
        let one = texts.push(t);
        assert(one.drop_first() =~= Seq::<Seq<char>>::empty());
        assert(ser_texts(one.drop_first()) =~= Seq::<u8>::empty());
        assert(one[0] == t);
        assert(ser_texts(one) =~= ser_text(t) + ser_texts(one.drop_first()));
        assert(ser_texts(texts) =~= Seq::<u8>::empty());
        assert(ser_texts(texts.push(t)) =~= ser_texts(texts) + ser_text(t));
    } else {
        lemma_ser_texts_push(texts.drop_first(), t);
        assert(texts.push(t).drop_first() =~= texts.drop_first().push(t));
        assert(ser_texts(texts.push(t)) =~= ser_texts(texts) + ser_text(t));
    }
}

} // verus!

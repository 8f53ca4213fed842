//! The package codec: writing a package to bytes and reading it back.

use vstd::prelude::*;
use vstd::bytes::{u32_from_le_bytes, u32_to_le_bytes};
use vstd::slice::slice_subrange;
use vstd::utf8::{decode_utf8, valid_utf8};
use crate::bytes::{append_bytes, copy_range};
use crate::errors::{ErrorView, PatchError};
use crate::map_struct::names_view;
use crate::package::{deltas_view, DeltaRecord, DeltaView, Package, PackageView, Strategy, FORMAT_VERSION};
use crate::wire::{after, body_fits, encodable, entries_fit, entry_fits, lemma_package_read, lemma_package_round_trip, lemma_ser_entries_push, lemma_ser_texts_push, parse_blob, parse_entries, parse_entry, parse_header, parse_package, parse_tag, parse_text, parse_texts, parse_u32, ser_blob, ser_entries, ser_entry, ser_package, ser_text, ser_texts, ser_u32, text_fits, texts_fit, MAX_FIELD, MAX_PATH_LEN, TAG_GENERIC_BINARY, TAG_LITERAL, TAG_RAW_SUBTRACT};

verus! {

/// `String::from_utf8`: the text that the bytes encode, or `None` where
/// they are not valid UTF-8.
#[verifier::external_body]
fn text_from_utf8(bytes: Vec<u8>) -> (text: Option<String>)
    ensures
        match text {
            Some(t) => valid_utf8(bytes@) && t@ == decode_utf8(bytes@),
            None => !valid_utf8(bytes@),
        },
{
    match String::from_utf8(bytes) {
        Ok(t) => Some(t),
        Err(_) => None,
    }
}

// ---------------------------------------------------------------------
// Writing
// ---------------------------------------------------------------------
fn put_u32(out: &mut Vec<u8>, v: u32)
    ensures
        final(out)@ == old(out)@ + ser_u32(v as int),
{
    let field = u32_to_le_bytes(v);
    append_bytes(out, field.as_slice());
}

fn put_blob(out: &mut Vec<u8>, bytes: &[u8])
    requires
        bytes@.len() <= MAX_FIELD,
    ensures
        final(out)@ == old(out)@ + ser_blob(bytes@),
{
    put_u32(out, bytes.len() as u32);
    append_bytes(out, bytes);
    assert(out@ =~= old(out)@ + ser_blob(bytes@));
}

fn put_text(out: &mut Vec<u8>, text: &str)
    requires
        text_fits(text@),
    ensures
        final(out)@ == old(out)@ + ser_text(text@),
{
    put_blob(out, text.as_bytes());
}

fn put_entry(out: &mut Vec<u8>, entry: &DeltaRecord)
    requires
        entry_fits(entry@),
    ensures
        final(out)@ == old(out)@ + ser_entry(entry@),
{
    put_text(out, entry.relative_path.as_str());
    let tag = match entry.strategy {
        Strategy::Literal => TAG_LITERAL,
        Strategy::RawSubtract => TAG_RAW_SUBTRACT,
        Strategy::GenericBinary => TAG_GENERIC_BINARY,
    };
    out.push(tag);
    put_blob(out, entry.payload.as_slice());
    match entry.strategy {
        Strategy::RawSubtract => {
            put_blob(out, entry.header.as_slice());
        },
        _ => {},
    }
    assert(out@ =~= old(out)@ + ser_entry(entry@));
}

/// Whether a text fits the layout.
fn fits_text(text: &str) -> (fits: bool)
    ensures
        fits == text_fits(text@),
{
    text.as_bytes().len() <= MAX_PATH_LEN
}

/// Whether an entry fits the layout.
fn fits_entry(entry: &DeltaRecord) -> (fits: bool)
    ensures
        fits == entry_fits(entry@),
{
    let plain = match entry.strategy {
        Strategy::RawSubtract => false,
        _ => true,
    };
    fits_text(entry.relative_path.as_str()) && entry.payload.len() <= MAX_FIELD && entry.header.len()
        <= MAX_FIELD && (!plain || entry.header.len() == 0)
}

/// Whether all but the format version of a package fits the layout.
fn fits_body(package: &Package) -> (fits: bool)
    ensures
        fits == body_fits(package@),
{
    if !fits_text(package.new_version.as_str()) || package.entries.len() > MAX_FIELD
        || package.removed.len() > MAX_FIELD {
        return false;
    }
    let mut i: usize = 0;
    while i < package.entries.len()
        invariant
            i <= package.entries.len(),
            forall|k: int| 0 <= k < i ==> entry_fits(#[trigger] package@.entries[k]),
        decreases package.entries.len() - i,
    {
        if !fits_entry(&package.entries[i]) {
            assert(!entry_fits(package@.entries[i as int]));
            return false;
        }
        i += 1;
    }
    let mut j: usize = 0;
    while j < package.removed.len()
        invariant
            j <= package.removed.len(),
            entries_fit(package@.entries),
            forall|k: int| 0 <= k < j ==> text_fits(#[trigger] package@.removed[k]),
        decreases package.removed.len() - j,
    {
        if !fits_text(package.removed[j].as_str()) {
            assert(!text_fits(package@.removed[j as int]));
            return false;
        }
        j += 1;
    }
    true
}

/// Writes a package to bytes.
///
/// A package of another format version than [`FORMAT_VERSION`] is refused
/// as `UnsupportedFormatVersion`. A package that does not fit the layout
/// is refused as `CorruptPackage`: one with a path or a version label of
/// more than [`MAX_PATH_LEN`] bytes, with a payload, a header or a list
/// that a 32-bit length does not hold, or with a header on an entry that
/// is not a raw subtraction. Every other package is written, and
/// [`decode_package`] reads the bytes as that package.
pub fn encode_package(package: &Package) -> (r: Result<Vec<u8>, PatchError>)
    ensures
        r is Ok <==> encodable(package@),
        r matches Ok(bytes) ==> bytes@ == ser_package(package@) && parse_package(bytes@) == Ok::<
            PackageView,
            ErrorView,
        >(package@),
        r matches Err(e) ==> e@ == if package.format_version != FORMAT_VERSION {
            ErrorView::UnsupportedFormatVersion
        } else {
            ErrorView::CorruptPackage
        },
{
    if package.format_version != FORMAT_VERSION {
        return Err(PatchError::UnsupportedFormatVersion);
    }
    if !fits_body(package) {
        return Err(PatchError::CorruptPackage);
    }
    let ghost p = package@;
    let mut out: Vec<u8> = Vec::new();
    put_u32(&mut out, package.format_version);
    put_text(&mut out, package.new_version.as_str());
    put_u32(&mut out, package.entries.len() as u32);
    let ghost head = out@;
    let mut i: usize = 0;
    assert(p.entries.take(0) =~= Seq::empty());
    while i < package.entries.len()
        invariant
            i <= package.entries.len(),
            p == package@,
            entries_fit(p.entries),
            out@ == head + ser_entries(p.entries.take(i as int)),
        decreases package.entries.len() - i,
    {
        proof {
            lemma_ser_entries_push(p.entries.take(i as int), p.entries[i as int]);
            assert(p.entries.take(i as int).push(p.entries[i as int]) =~= p.entries.take(i + 1));
        }
        put_entry(&mut out, &package.entries[i]);
        assert(out@ =~= head + ser_entries(p.entries.take(i + 1)));
        i += 1;
    }
    assert(p.entries.take(package.entries.len() as int) =~= p.entries);
    put_u32(&mut out, package.removed.len() as u32);
    let ghost middle = out@;
    let mut j: usize = 0;
    assert(p.removed.take(0) =~= Seq::empty());
    while j < package.removed.len()
        invariant
            j <= package.removed.len(),
            p == package@,
            texts_fit(p.removed),
            out@ == middle + ser_texts(p.removed.take(j as int)),
        decreases package.removed.len() - j,
    {
        proof {
            lemma_ser_texts_push(p.removed.take(j as int), p.removed[j as int]);
            assert(p.removed.take(j as int).push(p.removed[j as int]) =~= p.removed.take(j + 1));
        }
        put_text(&mut out, package.removed[j].as_str());
        assert(out@ =~= middle + ser_texts(p.removed.take(j + 1)));
        j += 1;
    }
    assert(p.removed.take(package.removed.len() as int) =~= p.removed);
    proof {
        assert(out@ =~= ser_package(p));
        lemma_package_round_trip(p);
    }
    Ok(out)
}

// ---------------------------------------------------------------------
// Reading
// ---------------------------------------------------------------------
fn read_u32(bytes: &[u8], pos: usize) -> (r: Result<(u32, usize), PatchError>)
    requires
        pos <= bytes@.len(),
    ensures
        match r {
            Ok((v, next)) => pos <= next <= bytes@.len() && parse_u32(bytes@.skip(pos as int))
                == Ok::<(int, Seq<u8>), ErrorView>((v as int, bytes@.skip(next as int))),
            Err(e) => parse_u32(bytes@.skip(pos as int)) == Err::<(int, Seq<u8>), ErrorView>(e@),
        },
{
    if bytes.len() - pos < 4 {
        return Err(PatchError::CorruptPackage);
    }
    let field = slice_subrange(bytes, pos, pos + 4);
    let v = u32_from_le_bytes(field);
    assert(bytes@.skip(pos as int).take(4) =~= field@);
    assert(bytes@.skip(pos as int).skip(4) =~= bytes@.skip(pos + 4));
    Ok((v, pos + 4))
}

fn read_blob(bytes: &[u8], pos: usize, limit: usize) -> (r: Result<(Vec<u8>, usize), PatchError>)
    requires
        pos <= bytes@.len(),
    ensures
        match r {
            Ok((blob, next)) => pos <= next <= bytes@.len() && parse_blob(
                bytes@.skip(pos as int),
                limit as int,
            ) == Ok::<(Seq<u8>, Seq<u8>), ErrorView>((blob@, bytes@.skip(next as int))),
            Err(e) => parse_blob(bytes@.skip(pos as int), limit as int) == Err::<
                (Seq<u8>, Seq<u8>),
                ErrorView,
            >(e@),
        },
{
    let (len, start) = match read_u32(bytes, pos) {
        Ok(pair) => pair,
        Err(e) => {
            return Err(e);
        },
    };
    let len = len as usize;
    if len > limit || len > bytes.len() - start {
        return Err(PatchError::CorruptPackage);
    }
    let blob = copy_range(bytes, start, start + len);
    assert(bytes@.skip(start as int).take(len as int) =~= blob@);
    assert(bytes@.skip(start as int).skip(len as int) =~= bytes@.skip(start + len));
    Ok((blob, start + len))
}

fn read_text(bytes: &[u8], pos: usize) -> (r: Result<(String, usize), PatchError>)
    requires
        pos <= bytes@.len(),
    ensures
        match r {
            Ok((text, next)) => pos <= next <= bytes@.len() && parse_text(bytes@.skip(pos as int))
                == Ok::<(Seq<char>, Seq<u8>), ErrorView>((text@, bytes@.skip(next as int))),
            Err(e) => parse_text(bytes@.skip(pos as int)) == Err::<(Seq<char>, Seq<u8>), ErrorView>(
                e@,
            ),
        },
{
    let (blob, next) = match read_blob(bytes, pos, MAX_PATH_LEN) {
        Ok(pair) => pair,
        Err(e) => {
            return Err(e);
        },
    };
    match text_from_utf8(blob) {
        Some(text) => Ok((text, next)),
        None => Err(PatchError::CorruptPackage),
    }
}

fn read_tag(bytes: &[u8], pos: usize) -> (r: Result<(Strategy, usize), PatchError>)
    requires
        pos <= bytes@.len(),
    ensures
        match r {
            Ok((strategy, next)) => pos <= next <= bytes@.len() && parse_tag(
                bytes@.skip(pos as int),
            ) == Ok::<(Strategy, Seq<u8>), ErrorView>((strategy, bytes@.skip(next as int))),
            Err(e) => parse_tag(bytes@.skip(pos as int)) == Err::<(Strategy, Seq<u8>), ErrorView>(
                e@,
            ),
        },
{
    if pos >= bytes.len() {
        return Err(PatchError::CorruptPackage);
    }
    let tag = bytes[pos];
    assert(bytes@.skip(pos as int)[0] == tag);
    assert(bytes@.skip(pos as int).skip(1) =~= bytes@.skip(pos + 1));
    if tag == TAG_LITERAL {
        Ok((Strategy::Literal, pos + 1))
    } else if tag == TAG_RAW_SUBTRACT {
        Ok((Strategy::RawSubtract, pos + 1))
    } else if tag == TAG_GENERIC_BINARY {
        Ok((Strategy::GenericBinary, pos + 1))
    } else {
        Err(PatchError::UnsupportedStrategy)
    }
}

fn read_entry(bytes: &[u8], pos: usize) -> (r: Result<(DeltaRecord, usize), PatchError>)
    requires
        pos <= bytes@.len(),
    ensures
        match r {
            Ok((entry, next)) => pos <= next <= bytes@.len() && parse_entry(
                bytes@.skip(pos as int),
            ) == Ok::<(DeltaView, Seq<u8>), ErrorView>((entry@, bytes@.skip(next as int))),
            Err(e) => parse_entry(bytes@.skip(pos as int)) == Err::<(DeltaView, Seq<u8>), ErrorView>(
                e@,
            ),
        },
{
    let (relative_path, at_tag) = match read_text(bytes, pos) {
        Ok(pair) => pair,
        Err(e) => {
            return Err(e);
        },
    };
    let (strategy, at_payload) = match read_tag(bytes, at_tag) {
        Ok(pair) => pair,
        Err(e) => {
            return Err(e);
        },
    };
    let (payload, at_header) = match read_blob(bytes, at_payload, MAX_FIELD) {
        Ok(pair) => pair,
        Err(e) => {
            return Err(e);
        },
    };
    let (header, next) = match strategy {
        Strategy::RawSubtract => match read_blob(bytes, at_header, MAX_FIELD) {
            Ok(pair) => pair,
            Err(e) => {
                assert(parse_header(strategy, bytes@.skip(at_header as int)) is Err);
                return Err(e);
            },
        },
        _ => (Vec::new(), at_header),
    };
    assert(parse_header(strategy, bytes@.skip(at_header as int)) == Ok::<
        (Seq<u8>, Seq<u8>),
        ErrorView,
    >((header@, bytes@.skip(next as int))));
    Ok((DeltaRecord { relative_path, strategy, payload, header }, next))
}

fn read_entries(bytes: &[u8], pos: usize, count: u32) -> (r: Result<
    (Vec<DeltaRecord>, usize),
    PatchError,
>)
    requires
        pos <= bytes@.len(),
    ensures
        match r {
            Ok((entries, next)) => pos <= next <= bytes@.len() && parse_entries(
                bytes@.skip(pos as int),
                count as nat,
            ) == Ok::<(Seq<DeltaView>, Seq<u8>), ErrorView>(
                (deltas_view(entries@), bytes@.skip(next as int)),
            ),
            Err(e) => parse_entries(bytes@.skip(pos as int), count as nat) == Err::<
                (Seq<DeltaView>, Seq<u8>),
                ErrorView,
            >(e@),
        },
{
    let mut entries: Vec<DeltaRecord> = Vec::new();
    let mut at: usize = pos;
    let mut i: u32 = 0;
    let ghost whole = parse_entries(bytes@.skip(pos as int), count as nat);
    assert(deltas_view(entries@) + Seq::<DeltaView>::empty() =~= Seq::<DeltaView>::empty());
    assert(whole == after(deltas_view(entries@), whole)) by {
        match whole {
            Ok((items, rest)) => {
                assert(deltas_view(entries@) + items =~= items);
            },
            Err(e) => {},
        }
    }
    while i < count
        invariant
            i <= count,
            pos <= at <= bytes@.len(),
            whole == parse_entries(bytes@.skip(pos as int), count as nat),
            whole == after(
                deltas_view(entries@),
                parse_entries(bytes@.skip(at as int), (count - i) as nat),
            ),
        decreases count - i,
    {
        let ghost done = deltas_view(entries@);
        let ghost here = bytes@.skip(at as int);
        match read_entry(bytes, at) {
            Err(e) => {
                return Err(e);
            },
            Ok((entry, next)) => {
                let ghost tail = parse_entries(
                    bytes@.skip(next as int),
                    (count - i - 1) as nat,
                );
                assert(parse_entries(here, (count - i) as nat) == after(seq![entry@], tail));
                entries.push(entry);
                assert(deltas_view(entries@) =~= done.push(entry@));
                assert(whole == after(deltas_view(entries@), tail)) by {
                    match tail {
                        Ok((items, rest)) => {
                            assert(done + (seq![entry@] + items) =~= done.push(entry@) + items);
                        },
                        Err(e) => {},
                    }
                }
                at = next;
            },
        }
        i += 1;
    }
    assert(deltas_view(entries@) + Seq::<DeltaView>::empty() =~= deltas_view(entries@));
    Ok((entries, at))
}

fn read_texts(bytes: &[u8], pos: usize, count: u32) -> (r: Result<(Vec<String>, usize), PatchError>)
    requires
        pos <= bytes@.len(),
    ensures
        match r {
            Ok((texts, next)) => pos <= next <= bytes@.len() && parse_texts(
                bytes@.skip(pos as int),
                count as nat,
            ) == Ok::<(Seq<Seq<char>>, Seq<u8>), ErrorView>(
                (names_view(texts@), bytes@.skip(next as int)),
            ),
            Err(e) => parse_texts(bytes@.skip(pos as int), count as nat) == Err::<
                (Seq<Seq<char>>, Seq<u8>),
                ErrorView,
            >(e@),
        },
{
    let mut texts: Vec<String> = Vec::new();
    let mut at: usize = pos;
    let mut i: u32 = 0;
    let ghost whole = parse_texts(bytes@.skip(pos as int), count as nat);
    assert(names_view(texts@) + Seq::<Seq<char>>::empty() =~= Seq::<Seq<char>>::empty());
    assert(whole == after(names_view(texts@), whole)) by {
        match whole {
            Ok((items, rest)) => {
                assert(names_view(texts@) + items =~= items);
            },
            Err(e) => {},
        }
    }
    while i < count
        invariant
            i <= count,
            pos <= at <= bytes@.len(),
            whole == parse_texts(bytes@.skip(pos as int), count as nat),
            whole == after(
                names_view(texts@),
                parse_texts(bytes@.skip(at as int), (count - i) as nat),
            ),
        decreases count - i,
    {
        let ghost done = names_view(texts@);
        let ghost here = bytes@.skip(at as int);
        match read_text(bytes, at) {
            Err(e) => {
                return Err(e);
            },
            Ok((text, next)) => {
                let ghost tail = parse_texts(bytes@.skip(next as int), (count - i - 1) as nat);
                assert(parse_texts(here, (count - i) as nat) == after(seq![text@], tail));
                let ghost t = text@;
                texts.push(text);
                assert(names_view(texts@) =~= done.push(t));
                assert(whole == after(names_view(texts@), tail)) by {
                    match tail {
                        Ok((items, rest)) => {
                            assert(done + (seq![t] + items) =~= done.push(t) + items);
                        },
                        Err(e) => {},
                    }
                }
                at = next;
            },
        }
        i += 1;
    }
    assert(names_view(texts@) + Seq::<Seq<char>>::empty() =~= names_view(texts@));
    Ok((texts, at))
}

/// Reads a package from bytes.
///
/// The result is what [`parse_package`] says of the bytes: the package
/// that they hold, or the first fault met. A stream too short for a format
/// version is a `CorruptPackage`; another format version than
/// [`FORMAT_VERSION`] is an `UnsupportedFormatVersion`, whatever follows
/// it; an unknown strategy tag is an `UnsupportedStrategy`; a length that
/// exceeds what is left or what the layout admits, a text that is not
/// UTF-8, and bytes behind the last removed path are a `CorruptPackage`.
/// A package that was read can be written, and [`encode_package`] gives
/// the bytes that it was read from.
pub fn decode_package(bytes: &[u8]) -> (r: Result<Package, PatchError>)
    ensures
        match r {
            Ok(package) => parse_package(bytes@) == Ok::<PackageView, ErrorView>(package@),
            Err(e) => parse_package(bytes@) == Err::<PackageView, ErrorView>(e@),
        },
        r matches Ok(package) ==> encodable(package@) && ser_package(package@) == bytes@,
{
    proof {
        if parse_package(bytes@) is Ok {
            lemma_package_read(bytes@);
        }
    }
    assert(bytes@.skip(0) =~= bytes@);
    let (format_version, at_label) = match read_u32(bytes, 0) {
        Ok(pair) => pair,
        Err(e) => {
            return Err(e);
        },
    };
    if format_version != FORMAT_VERSION {
        return Err(PatchError::UnsupportedFormatVersion);
    }
    let (new_version, at_count) = match read_text(bytes, at_label) {
        Ok(pair) => pair,
        Err(e) => {
            return Err(e);
        },
    };
    let (count, at_entries) = match read_u32(bytes, at_count) {
        Ok(pair) => pair,
        Err(e) => {
            return Err(e);
        },
    };
    let (entries, at_removed_count) = match read_entries(bytes, at_entries, count) {
        Ok(pair) => pair,
        Err(e) => {
            return Err(e);
        },
    };
    let (removed_count, at_removed) = match read_u32(bytes, at_removed_count) {
        Ok(pair) => pair,
        Err(e) => {
            return Err(e);
        },
    };
    let (removed, end) = match read_texts(bytes, at_removed, removed_count) {
        Ok(pair) => pair,
        Err(e) => {
            return Err(e);
        },
    };
    if end != bytes.len() {
        return Err(PatchError::CorruptPackage);
    }
    Ok(Package { format_version, new_version, entries, removed })
}

} // verus!

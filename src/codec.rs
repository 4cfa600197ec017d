//! The versioned binary encoding of a catalog.
//!
//! Layout, every integer a little-endian `u64`: the format mark, the format
//! version, the reference time, the half-life, the next id, the number of
//! entries, then each entry as id, score, name, icon and command. A text is
//! its UTF-8 length followed by its UTF-8 bytes. Decoding accepts exactly the
//! encodings of well-formed catalogs of this version.
use crate::db::{content_unique, contains_app, views, AppsDB};
use crate::entry::{App, AppView};
use vstd::bytes::*;
use vstd::prelude::*;
use vstd::slice::{slice_subrange, slice_to_vec};
use vstd::utf8::*;

verus! {

broadcast use group_utf8_lib;

/// Marks a byte stream as a catalog ("PKDB" and four zero bytes).
pub const FORMAT_MARK: u64 = 0x4244_4b50;

/// The version of the layout that this module writes and reads.
pub const FORMAT_VERSION: u64 = 1;

/// Why bytes could not be read as a catalog.
#[derive(Debug, PartialEq, Eq)]
pub enum DecodeError {
    /// The bytes do not follow the layout.
    Malformed,
    /// The bytes carry another version of the layout.
    UnknownVersion { version: u64 },
    /// The half-life is zero.
    InvalidHalfLife,
    /// Two entries stand for the same application.
    DuplicateEntry,
}

/// What a catalog holds, as plain values.
pub struct CatalogView {
    pub apps: Seq<AppView>,
    pub reference_time: u64,
    pub half_life: u64,
    pub next_id: u64,
}

impl AppsDB {
    pub open spec fn catalog_view(&self) -> CatalogView {
        CatalogView {
            apps: views(self.apps@),
            reference_time: self.reference_time,
            half_life: self.half_life,
            next_id: self.next_id,
        }
    }
}

pub open spec fn enc_u64(x: u64) -> Seq<u8> {
    spec_u64_to_le_bytes(x)
}

pub open spec fn enc_text(s: Seq<char>) -> Seq<u8> {
    enc_u64(encode_utf8(s).len() as u64) + encode_utf8(s)
}

pub open spec fn enc_entry(a: AppView) -> Seq<u8> {
    enc_u64(a.uuid) + enc_u64(a.score) + enc_text(a.name) + enc_text(a.icon) + enc_text(a.command)
}

pub open spec fn enc_entries(s: Seq<AppView>) -> Seq<u8>
    decreases s.len(),
{
    if s.len() == 0 {
        Seq::empty()
    } else {
        enc_entries(s.drop_last()) + enc_entry(s.last())
    }
}

/// The encoding of a catalog.
pub open spec fn enc_catalog(c: CatalogView) -> Seq<u8> {
    enc_u64(FORMAT_MARK) + enc_u64(FORMAT_VERSION) + enc_u64(c.reference_time) + enc_u64(
        c.half_life,
    ) + enc_u64(c.next_id) + enc_u64(c.apps.len() as u64) + enc_entries(c.apps)
}

/// A `u64` at the front of `b`, and what follows it.
pub open spec fn take_u64(b: Seq<u8>) -> Option<(u64, Seq<u8>)> {
    if b.len() >= 8 {
        Some((spec_u64_from_le_bytes(b.take(8)), b.skip(8)))
    } else {
        None
    }
}

/// A text at the front of `b`, and what follows it.
pub open spec fn take_text(b: Seq<u8>) -> Option<(Seq<char>, Seq<u8>)> {
    match take_u64(b) {
        None => None,
        Some((n, rest)) => if n <= rest.len() && valid_utf8(rest.take(n as int)) {
            Some((decode_utf8(rest.take(n as int)), rest.skip(n as int)))
        } else {
            None
        },
    }
}

/// An entry at the front of `b`, and what follows it.
pub open spec fn take_entry(b: Seq<u8>) -> Option<(AppView, Seq<u8>)> {
    match take_u64(b) {
        None => None,
        Some((uuid, b1)) => match take_u64(b1) {
            None => None,
            Some((score, b2)) => match take_text(b2) {
                None => None,
                Some((name, b3)) => match take_text(b3) {
                    None => None,
                    Some((icon, b4)) => match take_text(b4) {
                        None => None,
                        Some((command, b5)) => Some(
                            (AppView { name, icon, command, uuid, score }, b5),
                        ),
                    },
                },
            },
        },
    }
}

/// `n` entries at the front of `b`, and what follows them.
pub open spec fn take_entries(b: Seq<u8>, n: nat) -> Option<(Seq<AppView>, Seq<u8>)>
    decreases n,
{
    if n == 0 {
        Some((Seq::empty(), b))
    } else {
        match take_entries(b, (n - 1) as nat) {
            None => None,
            Some((es, rest)) => match take_entry(rest) {
                None => None,
                Some((e, rest2)) => Some((es.push(e), rest2)),
            },
        }
    }
}

/// What decoding `b` gives: the catalog it encodes, or the first fault
/// found, in this order: a header cut short or without the format mark, another
/// version, entries that do not parse or bytes after them, a zero half-life,
/// two entries for one application.
pub open spec fn decode_spec(b: Seq<u8>) -> Result<CatalogView, DecodeError> {
    if b.len() < 48 {
        Err(DecodeError::Malformed)
    } else {
        let mark = take_u64(b)->Some_0.0;
        let version = take_u64(b.skip(8))->Some_0.0;
        let reference_time = take_u64(b.skip(16))->Some_0.0;
        let half_life = take_u64(b.skip(24))->Some_0.0;
        let next_id = take_u64(b.skip(32))->Some_0.0;
        let count = take_u64(b.skip(40))->Some_0.0;
        if mark != FORMAT_MARK {
            Err(DecodeError::Malformed)
        } else if version != FORMAT_VERSION {
            Err(DecodeError::UnknownVersion { version })
        } else {
            match take_entries(b.skip(48), count as nat) {
                None => Err(DecodeError::Malformed),
                Some((apps, rest)) => if rest.len() != 0 {
                    Err(DecodeError::Malformed)
                } else if half_life == 0 {
                    Err(DecodeError::InvalidHalfLife)
                } else if !content_unique(apps) {
                    Err(DecodeError::DuplicateEntry)
                } else {
                    Ok(CatalogView { apps, reference_time, half_life, next_id })
                },
            }
        }
    }
}

/// Every text of the catalog has a UTF-8 length that a `u64` holds.
pub open spec fn texts_fit(apps: Seq<AppView>) -> bool {
    forall|i: int|
        0 <= i < apps.len() ==> {
            &&& encode_utf8((#[trigger] apps[i]).name).len() <= u64::MAX
            &&& encode_utf8(apps[i].icon).len() <= u64::MAX
            &&& encode_utf8(apps[i].command).len() <= u64::MAX
        }
}

proof fn lemma_take_u64(x: u64, rest: Seq<u8>)
    ensures
        take_u64(enc_u64(x) + rest) == Some((x, rest)),
{
    lemma_auto_spec_u64_to_from_le_bytes();
    assert((enc_u64(x) + rest).take(8) =~= enc_u64(x));
    assert((enc_u64(x) + rest).skip(8) =~= rest);
}

proof fn lemma_take_text(s: Seq<char>, rest: Seq<u8>)
    requires
        encode_utf8(s).len() <= u64::MAX,
    ensures
        take_text(enc_text(s) + rest) == Some((s, rest)),
{
    let e = encode_utf8(s);
    assert(enc_text(s) + rest =~= enc_u64(e.len() as u64) + (e + rest));
    lemma_take_u64(e.len() as u64, e + rest);
    assert((e + rest).take(e.len() as int) =~= e);
    assert((e + rest).skip(e.len() as int) =~= rest);
}

proof fn lemma_take_entry(a: AppView, rest: Seq<u8>)
    requires
        encode_utf8(a.name).len() <= u64::MAX,
        encode_utf8(a.icon).len() <= u64::MAX,
        encode_utf8(a.command).len() <= u64::MAX,
    ensures
        take_entry(enc_entry(a) + rest) == Some((a, rest)),
{
    let b5 = rest;
    let b4 = enc_text(a.command) + b5;
    let b3 = enc_text(a.icon) + b4;
    let b2 = enc_text(a.name) + b3;
    let b1 = enc_u64(a.score) + b2;
    assert(enc_entry(a) + rest =~= enc_u64(a.uuid) + b1);
    lemma_take_u64(a.uuid, b1);
    lemma_take_u64(a.score, b2);
    lemma_take_text(a.name, b3);
    lemma_take_text(a.icon, b4);
    lemma_take_text(a.command, b5);
}

proof fn lemma_take_entries(s: Seq<AppView>, rest: Seq<u8>)
    requires
        texts_fit(s),
    ensures
        take_entries(enc_entries(s) + rest, s.len()) == Some((s, rest)),
    decreases s.len(),
{
    if s.len() > 0 {
        let init = s.drop_last();
        let a = s.last();
        assert(texts_fit(init)) by {
            assert forall|i: int| 0 <= i < init.len() implies {
                &&& encode_utf8((#[trigger] init[i]).name).len() <= u64::MAX
                &&& encode_utf8(init[i].icon).len() <= u64::MAX
                &&& encode_utf8(init[i].command).len() <= u64::MAX
            } by {
                assert(init[i] == s[i]);
            }
        }
        assert(s[s.len() - 1] == a);
        assert(enc_entries(s) + rest =~= enc_entries(init) + (enc_entry(a) + rest));
        lemma_take_entries(init, enc_entry(a) + rest);
        lemma_take_entry(a, rest);
        assert(init.push(a) =~= s);
    }
}

/// Decoding the encoding of a well-formed catalog gives back every field.
pub proof fn lemma_round_trip(c: CatalogView)
    requires
        c.half_life > 0,
        content_unique(c.apps),
        texts_fit(c.apps),
        c.apps.len() <= u64::MAX,
    ensures
        decode_spec(enc_catalog(c)) == Ok::<CatalogView, DecodeError>(c),
{
    let b6 = enc_entries(c.apps);
    let b5 = enc_u64(c.apps.len() as u64) + b6;
    let b4 = enc_u64(c.next_id) + b5;
    let b3 = enc_u64(c.half_life) + b4;
    let b2 = enc_u64(c.reference_time) + b3;
    let b1 = enc_u64(FORMAT_VERSION) + b2;
    assert(enc_catalog(c) =~= enc_u64(FORMAT_MARK) + b1);
    let e = enc_catalog(c);
    lemma_take_u64(FORMAT_MARK, b1);
    lemma_take_u64(FORMAT_VERSION, b2);
    lemma_take_u64(c.reference_time, b3);
    lemma_take_u64(c.half_life, b4);
    lemma_take_u64(c.next_id, b5);
    lemma_take_u64(c.apps.len() as u64, b6);
    assert(e.skip(8) =~= b1);
    assert(e.skip(16) =~= b2);
    assert(e.skip(24) =~= b3);
    assert(e.skip(32) =~= b4);
    assert(e.skip(40) =~= b5);
    assert(e.skip(48) =~= b6);
    assert(b6 =~= b6 + Seq::<u8>::empty());
    lemma_take_entries(c.apps, Seq::empty());
}

fn push_u64(out: &mut Vec<u8>, x: u64)
    ensures
        final(out)@ == old(out)@ + enc_u64(x),
{
    let mut b = u64_to_le_bytes(x);
    out.append(&mut b);
}

fn push_text(out: &mut Vec<u8>, s: &String)
    ensures
        final(out)@ == old(out)@ + enc_text(s@),
{
    let bytes = s.as_str().as_bytes();
    push_u64(out, bytes.len() as u64);
    let ghost start = out@;
    let mut k: usize = 0;
    while k < bytes.len()
        invariant
            k <= bytes.len(),
            bytes@ == encode_utf8(s@),
            out@ == start + bytes@.take(k as int),
        decreases bytes.len() - k,
    {
        out.push(bytes[k]);
        k = k + 1;
        proof {
            assert(out@ =~= start + bytes@.take(k as int));
        }
    }
    proof {
        assert(bytes@.take(bytes.len() as int) =~= bytes@);
    }
}

/// Read a `u64` at `pos`, giving it and the position after it.
fn read_u64(b: &[u8], pos: usize) -> (r: Option<(u64, usize)>)
    requires
        pos <= b@.len(),
    ensures
        match take_u64(b@.skip(pos as int)) {
            None => r is None,
            Some((x, rest)) => r matches Some((y, p)) && y == x && p <= b@.len() && b@.skip(
                p as int,
            ) == rest,
        },
{
    if b.len() - pos < 8 {
        return None;
    }
    let s = slice_subrange(b, pos, pos + 8);
    let x = u64_from_le_bytes(s);
    proof {
        assert(b@.skip(pos as int).take(8) =~= s@);
        assert(b@.skip(pos as int).skip(8) =~= b@.skip(pos + 8));
    }
    Some((x, pos + 8))
}

/// Relies on `String::from_utf8`: the text that the bytes encode, exactly
/// when they are valid UTF-8.
#[verifier::external_body]
fn string_from_utf8(bytes: Vec<u8>) -> (r: Option<String>)
    ensures
        r is Some <==> valid_utf8(bytes@),
        r matches Some(s) ==> s@ == decode_utf8(bytes@),
{
    String::from_utf8(bytes).ok()
}

/// Read a text at `pos`, giving it and the position after it.
fn read_text(b: &[u8], pos: usize) -> (r: Option<(String, usize)>)
    requires
        pos <= b@.len(),
    ensures
        match take_text(b@.skip(pos as int)) {
            None => r is None,
            Some((x, rest)) => r matches Some((y, p)) && y@ == x && p <= b@.len() && b@.skip(
                p as int,
            ) == rest,
        },
{
    let (n, p) = match read_u64(b, pos) {
        Some(v) => v,
        None => return None,
    };
    if n > (b.len() - p) as u64 {
        return None;
    }
    let end = p + n as usize;
    let bytes = slice_to_vec(slice_subrange(b, p, end));
    proof {
        assert(b@.skip(p as int).take(n as int) =~= bytes@);
        assert(b@.skip(p as int).skip(n as int) =~= b@.skip(end as int));
    }
    match string_from_utf8(bytes) {
        Some(s) => Some((s, end)),
        None => None,
    }
}

/// Read an entry at `pos`, giving it and the position after it.
fn read_entry(b: &[u8], pos: usize) -> (r: Option<(App, usize)>)
    requires
        pos <= b@.len(),
    ensures
        match take_entry(b@.skip(pos as int)) {
            None => r is None,
            Some((x, rest)) => r matches Some((y, p)) && y@ == x && p <= b@.len() && b@.skip(
                p as int,
            ) == rest,
        },
{
    let (uuid, p1) = match read_u64(b, pos) {
        Some(v) => v,
        None => return None,
    };
    let (score, p2) = match read_u64(b, p1) {
        Some(v) => v,
        None => return None,
    };
    let (name, p3) = match read_text(b, p2) {
        Some(v) => v,
        None => return None,
    };
    let (icon, p4) = match read_text(b, p3) {
        Some(v) => v,
        None => return None,
    };
    let (command, p5) = match read_text(b, p4) {
        Some(v) => v,
        None => return None,
    };
    Some((App { name, icon, command, uuid, score }, p5))
}

/// Whether no two entries of `apps` stand for the same application.
fn all_distinct(apps: &Vec<App>) -> (r: bool)
    ensures
        r == content_unique(views(apps@)),
{
    let ghost va = views(apps@);
    let mut seen: Vec<App> = Vec::new();
    let mut i: usize = 0;
    while i < apps.len()
        invariant
            i <= apps.len(),
            va == views(apps@),
            views(seen@) == va.take(i as int),
            content_unique(va.take(i as int)),
        decreases apps.len() - i,
    {
        let a = &apps[i];
        if contains_app(&seen, a) {
            proof {
                let k = choose|k: int| 0 <= k < views(seen@).len() && crate::entry::same_content(views(seen@)[k], a@);
                assert(va[k] == views(seen@)[k]);
                assert(va[i as int] == a@);
            }
            return false;
        }
        let ghost prev = views(seen@);
        let c = a.duplicate();
        seen.push(c);
        proof {
            assert(views(seen@) =~= prev.push(c@));
            assert(va.take(i + 1) =~= va.take(i as int).push(a@));
            assert forall|x: int, y: int|
                0 <= x < va.take(i + 1).len() && 0 <= y < va.take(i + 1).len() && x != y implies !crate::entry::same_content(
                #[trigger] va.take(i + 1)[x],
                #[trigger] va.take(i + 1)[y],
            ) by {
                if x < i && y < i {
                    assert(va.take(i + 1)[x] == va.take(i as int)[x]);
                    assert(va.take(i + 1)[y] == va.take(i as int)[y]);
                } else if x < i {
                    assert(va.take(i + 1)[x] == prev[x]);
                } else if y < i {
                    assert(va.take(i + 1)[y] == prev[y]);
                }
            }
        }
        i = i + 1;
    }
    proof {
        assert(va.take(apps.len() as int) =~= va);
    }
    true
}

impl AppsDB {
    /// The encoding of the catalog.
    pub fn to_bytes(&self) -> (r: Vec<u8>)
        ensures
            r@ == enc_catalog(self.catalog_view()),
    {
        let mut out: Vec<u8> = Vec::new();
        push_u64(&mut out, FORMAT_MARK);
        push_u64(&mut out, FORMAT_VERSION);
        push_u64(&mut out, self.reference_time);
        push_u64(&mut out, self.half_life);
        push_u64(&mut out, self.next_id);
        push_u64(&mut out, self.apps.len() as u64);
        let ghost head = out@;
        let ghost va = views(self.apps@);
        let mut i: usize = 0;
        while i < self.apps.len()
            invariant
                i <= self.apps.len(),
                va == views(self.apps@),
                out@ == head + enc_entries(va.take(i as int)),
            decreases self.apps.len() - i,
        {
            let a = &self.apps[i];
            let ghost before = out@;
            push_u64(&mut out, a.uuid);
            push_u64(&mut out, a.score);
            push_text(&mut out, &a.name);
            push_text(&mut out, &a.icon);
            push_text(&mut out, &a.command);
            proof {
                assert(va.take(i + 1).drop_last() =~= va.take(i as int));
                assert(va.take(i + 1).last() == a@);
                assert(out@ =~= before + enc_entry(a@));
                assert(out@ =~= head + enc_entries(va.take(i + 1)));
            }
            i = i + 1;
        }
        proof {
            assert(va.take(self.apps.len() as int) =~= va);
            assert(out@ =~= enc_catalog(self.catalog_view()));
        }
        out
    }

    /// The catalog that `bytes` encodes.
    pub fn from_bytes(bytes: &[u8]) -> (r: Result<AppsDB, DecodeError>)
        ensures
            match decode_spec(bytes@) {
                Ok(c) => r matches Ok(db) && db.wf() && db.catalog_view() == c,
                Err(e) => r == Err::<AppsDB, DecodeError>(e),
            },
    {
        let ghost b = bytes@;
        let (mark, p0) = match read_u64(bytes, 0) {
            Some(v) => v,
            None => return Err(DecodeError::Malformed),
        };
        proof {
            assert(b.skip(0) =~= b);
        }
        let (version, p1) = match read_u64(bytes, p0) {
            Some(v) => v,
            None => return Err(DecodeError::Malformed),
        };
        let (reference_time, p2) = match read_u64(bytes, p1) {
            Some(v) => v,
            None => return Err(DecodeError::Malformed),
        };
        let (half_life, p3) = match read_u64(bytes, p2) {
            Some(v) => v,
            None => return Err(DecodeError::Malformed),
        };
        let (next_id, p4) = match read_u64(bytes, p3) {
            Some(v) => v,
            None => return Err(DecodeError::Malformed),
        };
        let (count, p5) = match read_u64(bytes, p4) {
            Some(v) => v,
            None => return Err(DecodeError::Malformed),
        };
        if mark != FORMAT_MARK {
            return Err(DecodeError::Malformed);
        }
        if version != FORMAT_VERSION {
            return Err(DecodeError::UnknownVersion { version });
        }
        let ghost b5 = b.skip(p5 as int);
        proof {
            assert(b.skip(p0 as int) =~= b.skip(8));
            assert(b.skip(p1 as int) =~= b.skip(16));
            assert(b.skip(p2 as int) =~= b.skip(24));
            assert(b.skip(p3 as int) =~= b.skip(32));
            assert(b.skip(p4 as int) =~= b.skip(40));
            assert(b5 =~= b.skip(48));
        }
        let mut apps: Vec<App> = Vec::new();
        let mut pos: usize = p5;
        let mut i: u64 = 0;
        while i < count
            invariant
                i <= count,
                pos <= bytes@.len(),
                b == bytes@,
                b5 == b.skip(p5 as int),
                b.len() >= 48,
                b5 == b.skip(48),
                decode_spec(b) == (match take_entries(b5, count as nat) {
                    None => Err(DecodeError::Malformed),
                    Some((apps, rest)) => if rest.len() != 0 {
                        Err(DecodeError::Malformed)
                    } else if half_life == 0 {
                        Err(DecodeError::InvalidHalfLife)
                    } else if !content_unique(apps) {
                        Err(DecodeError::DuplicateEntry)
                    } else {
                        Ok(CatalogView { apps, reference_time, half_life, next_id })
                    },
                }),
                take_entries(b5, i as nat) == Some((views(apps@), b.skip(pos as int))),
            decreases count - i,
        {
            let (a, next) = match read_entry(bytes, pos) {
                Some(v) => v,
                None => {
                    proof {
                        assert(take_entries(b5, (i + 1) as nat) is None);
                        lemma_take_entries_none(b5, (i + 1) as nat, count as nat);
                    }
                    return Err(DecodeError::Malformed);
                },
            };
            let ghost prev = views(apps@);
            apps.push(a);
            proof {
                assert(views(apps@) =~= prev.push(a@));
            }
            pos = next;
            i = i + 1;
        }
        if pos != bytes.len() {
            return Err(DecodeError::Malformed);
        }
        if half_life == 0 {
            return Err(DecodeError::InvalidHalfLife);
        }
        if !all_distinct(&apps) {
            return Err(DecodeError::DuplicateEntry);
        }
        proof {
            assert(b.skip(pos as int).len() == 0);
        }
        Ok(AppsDB { apps, reference_time, half_life, next_id })
    }
}

proof fn lemma_take_entries_none(b: Seq<u8>, i: nat, n: nat)
    requires
        i <= n,
        take_entries(b, i) is None,
    ensures
        take_entries(b, n) is None,
    decreases n - i,
{
    if i < n {
        lemma_take_entries_none(b, i + 1, n);
    }
}

} // verus!

//! The vault's map of secrets, its plain-text record format, and the
//! encrypted blob that mirrors it.

use vstd::prelude::*;
use vstd::utf8::{
    char_is_scalar, char_u32_cast, decode_utf8, decode_utf8_encode_utf8, encode_scalar,
    encode_utf8, encode_utf8_decode_utf8, encode_utf8_valid_utf8, valid_utf8, valid_utf8_concat,
};
use crate::crypt::{
    gen_salt, opens_to, pbkdf2_key, seals, Crypt, CryptError, ITERATIONS, MAX_PLAIN_LEN, MAX_SECRET_LEN,
};

verus! {

/// The byte that separates a key from its value in a record.
pub const COLON: u8 = 58;

/// The byte that ends a record.
pub const NEWLINE: u8 = 10;

/// What base64 decoding of a text gives: the bytes, or `None` when the text
/// is not valid base64.
pub uninterp spec fn base64_decoded(text: Seq<char>) -> Option<Seq<u8>>;

/// The standard, padded base64 text of some bytes.
pub uninterp spec fn base64_text(bytes: Seq<u8>) -> Seq<char>;

/// Relies on base64's STANDARD engine `encode`: the padded base64 text of the bytes.
#[verifier::external_body]
fn base64_encode(bytes: &[u8]) -> (r: String)
    ensures
        r@ == base64_text(bytes@),
{
    base64::Engine::encode(&base64::engine::general_purpose::STANDARD, bytes)
}

/// Relies on base64's STANDARD engine `decode`, which gives back the bytes of
/// any text that `encode` produced.
#[verifier::external_body]
fn base64_decode(text: &str) -> (r: Option<Vec<u8>>)
    ensures
        r matches Some(b) ==> base64_decoded(text@) == Some(b@),
        r is None ==> base64_decoded(text@) is None,
        r is None ==> forall|b: Seq<u8>| #[trigger] base64_text(b) != text@,
        r matches Some(d) ==> forall|b: Seq<u8>| #[trigger] base64_text(b) == text@ ==> d@ == b,
{
    base64::Engine::decode(&base64::engine::general_purpose::STANDARD, text).ok()
}

/// Relies on std's String::from_utf8: succeeds exactly on valid UTF-8, and
/// then holds the characters those bytes encode.
#[verifier::external_body]
fn string_from_utf8(bytes: Vec<u8>) -> (r: Option<String>)
    ensures
        r is Some <==> valid_utf8(bytes@),
        r matches Some(s) ==> s@ == decode_utf8(bytes@),
{
    String::from_utf8(bytes).ok()
}

/// Relies on std's String::push_str: appends the characters of `tail`.
#[verifier::external_body]
pub(crate) fn push_str(s: &mut String, tail: &str)
    ensures
        final(s)@ == old(s)@ + tail@,
{
    s.push_str(tail)
}

/// The salt written in a salt file's text, when that text is the base64 of
/// exactly sixteen bytes.
pub open spec fn salt_of_text(text: Seq<char>) -> Option<Seq<u8>> {
    match base64_decoded(text) {
        Some(b) => if b.len() == 16 { Some(b) } else { None },
        None => None,
    }
}

/// The map that a sequence of entries stands for: later entries win.
pub open spec fn entries_map(es: Seq<(String, String)>) -> Map<Seq<char>, Seq<char>>
    decreases es.len(),
{
    if es.len() == 0 {
        Map::empty()
    } else {
        entries_map(es.drop_last()).insert(es.last().0@, es.last().1@)
    }
}

/// No two entries share a key.
pub open spec fn keys_unique(es: Seq<(String, String)>) -> bool {
    forall|i: int, j: int|
        0 <= i < j < es.len() ==> (#[trigger] es[i]).0@ != (#[trigger] es[j]).0@
}

/// One record of the plain-text format: `key:value` and a newline.
pub open spec fn record_bytes(key: Seq<char>, value: Seq<char>) -> Seq<u8> {
    encode_utf8(key) + seq![COLON] + encode_utf8(value) + seq![NEWLINE]
}

/// The plain text of a sequence of entries: their records, in order.
pub open spec fn serialized(es: Seq<(String, String)>) -> Seq<u8>
    decreases es.len(),
{
    if es.len() == 0 {
        Seq::empty()
    } else {
        serialized(es.drop_last()) + record_bytes(es.last().0@, es.last().1@)
    }
}

/// Words joined by single spaces.
pub open spec fn joined(ws: Seq<Seq<char>>) -> Seq<char>
    decreases ws.len(),
{
    if ws.len() == 0 {
        Seq::empty()
    } else if ws.len() == 1 {
        ws[0]
    } else {
        joined(ws.drop_last()) + seq![' '] + ws.last()
    }
}

/// Where a scan of plain text stands: the records found so far, and the key
/// and value of the line being read, with whether its colon was seen.
pub struct Scan {
    pub done: Seq<(Seq<u8>, Seq<u8>)>,
    pub key: Seq<u8>,
    pub value: Seq<u8>,
    pub colon: bool,
}

/// The scan before any byte.
pub open spec fn scan_start() -> Scan {
    Scan { done: Seq::empty(), key: Seq::empty(), value: Seq::empty(), colon: false }
}

/// The records of a scan once its input ends: a last line without a
/// newline counts when it holds a colon.
pub open spec fn scan_records(s: Scan) -> Seq<(Seq<u8>, Seq<u8>)> {
    if s.colon {
        s.done.push((s.key, s.value))
    } else {
        s.done
    }
}

/// One byte of a scan: a newline closes the line, which is a record only if
/// it held a colon; the first colon of a line ends its key; everything else
/// goes to the key or, after the colon, to the value.
pub open spec fn scan_step(s: Scan, c: u8) -> Scan {
    if c == NEWLINE {
        Scan { done: scan_records(s), key: Seq::empty(), value: Seq::empty(), colon: false }
    } else if !s.colon && c == COLON {
        Scan { colon: true, ..s }
    } else if !s.colon {
        Scan { key: s.key.push(c), ..s }
    } else {
        Scan { value: s.value.push(c), ..s }
    }
}

/// The scan of some bytes from a given point.
pub open spec fn scan_from(s: Scan, b: Seq<u8>) -> Scan
    decreases b.len(),
{
    if b.len() == 0 {
        s
    } else {
        scan_step(scan_from(s, b.drop_last()), b.last())
    }
}

/// The records of a plain text, in order.
pub open spec fn records_of(b: Seq<u8>) -> Seq<(Seq<u8>, Seq<u8>)> {
    scan_records(scan_from(scan_start(), b))
}

/// The map that a sequence of records stands for, later records winning;
/// `None` when a key or a value is not valid UTF-8.
pub open spec fn records_map(rs: Seq<(Seq<u8>, Seq<u8>)>) -> Option<Map<Seq<char>, Seq<char>>>
    decreases rs.len(),
{
    if rs.len() == 0 {
        Some(Map::empty())
    } else {
        match records_map(rs.drop_last()) {
            Some(m) => if valid_utf8(rs.last().0) && valid_utf8(rs.last().1) {
                Some(m.insert(decode_utf8(rs.last().0), decode_utf8(rs.last().1)))
            } else {
                None
            },
            None => None,
        }
    }
}

/// The map that a plain text holds; `None` when the text is not UTF-8.
pub open spec fn parsed(b: Seq<u8>) -> Option<Map<Seq<char>, Seq<char>>> {
    if valid_utf8(b) {
        records_map(records_of(b))
    } else {
        None
    }
}

/// Each entry's key and value are both in the map, and every key of the map
/// belongs to an entry.
proof fn lemma_entries_map(es: Seq<(String, String)>)
    requires
        keys_unique(es),
    ensures
        forall|i: int|
            0 <= i < es.len() ==> entries_map(es).dom().contains((#[trigger] es[i]).0@)
                && entries_map(es)[es[i].0@] == es[i].1@,
        forall|k: Seq<char>|
            #[trigger] entries_map(es).dom().contains(k) ==> exists|i: int|
                0 <= i < es.len() && (#[trigger] es[i]).0@ == k,
    decreases es.len(),
{
    if es.len() > 0 {
        let p = es.drop_last();
        assert(keys_unique(p)) by {
            assert forall|i: int, j: int| 0 <= i < j < p.len() implies (#[trigger] p[i]).0@ != (
            #[trigger] p[j]).0@ by {
                assert(p[i] == es[i] && p[j] == es[j]);
            }
        }
        lemma_entries_map(p);
        assert forall|i: int| 0 <= i < es.len() implies entries_map(es).dom().contains(
            (#[trigger] es[i]).0@,
        ) && entries_map(es)[es[i].0@] == es[i].1@ by {
            if i < es.len() - 1 {
                assert(p[i] == es[i]);
                assert(es[i].0@ != es[es.len() - 1].0@);
            }
        }
        assert forall|k: Seq<char>| #[trigger] entries_map(es).dom().contains(k) implies exists|
            i: int,
        | 0 <= i < es.len() && (#[trigger] es[i]).0@ == k by {
            assert(entries_map(es) == entries_map(p).insert(es.last().0@, es.last().1@));
            if k != es.last().0@ {
                assert(entries_map(p).dom().contains(k));
                let i = choose|i: int| 0 <= i < p.len() && (#[trigger] p[i]).0@ == k;
                assert(es[i] == p[i]);
                assert(es[i].0@ == k);
            } else {
                assert(es[es.len() - 1].0@ == k);
            }
        }
    }
}

/// The scan of a concatenation is the scan of the second part, started where
/// the scan of the first part ended.
proof fn lemma_scan_concat(s: Scan, a: Seq<u8>, b: Seq<u8>)
    ensures
        scan_from(s, a + b) == scan_from(scan_from(s, a), b),
    decreases b.len(),
{
    if b.len() == 0 {
        assert(a + b == a);
    } else {
        lemma_scan_concat(s, a, b.drop_last());
        assert((a + b).drop_last() == a + b.drop_last());
        assert((a + b).last() == b.last());
    }
}

/// The key that a password and a salt give a vault.
pub open spec fn vault_key(passwort: Seq<char>, salt: Seq<u8>) -> Seq<u8> {
    pbkdf2_key(ITERATIONS, salt, encode_utf8(passwort))
}

/// Once the records found by a scan stop being readable, no later byte makes
/// them readable again.
proof fn lemma_records_none_extends(b: Seq<u8>, i: int)
    requires
        0 <= i <= b.len(),
        records_map(scan_from(scan_start(), b.subrange(0, i)).done) is None,
    ensures
        parsed(b) is None,
    decreases b.len() - i,
{
    let s = scan_from(scan_start(), b.subrange(0, i));
    if i == b.len() {
        assert(b.subrange(0, i) == b);
        if s.colon {
            assert(s.done.push((s.key, s.value)).drop_last() == s.done);
        }
    } else {
        assert(b.subrange(0, i + 1).drop_last() == b.subrange(0, i));
        let t = scan_from(scan_start(), b.subrange(0, i + 1));
        if b[i] == NEWLINE && s.colon {
            assert(t.done.drop_last() == s.done);
        }
        lemma_records_none_extends(b, i + 1);
    }
}

/// A map that the record format can hold: no key contains a colon or a
/// newline, and no value contains a newline.
pub open spec fn storable(m: Map<Seq<char>, Seq<char>>) -> bool {
    forall|k: Seq<char>|
        #[trigger] m.dom().contains(k) ==> !k.contains(':') && !k.contains('\n') && !m[k].contains(
            '\n',
        )
}

/// Entries that the record format can hold.
pub open spec fn entries_storable(es: Seq<(String, String)>) -> bool {
    forall|i: int|
        0 <= i < es.len() ==> !(#[trigger] es[i]).0@.contains(':') && !es[i].0@.contains('\n')
            && !es[i].1@.contains('\n')
}

/// The byte records of some entries: their keys and values in UTF-8.
pub open spec fn entry_records(es: Seq<(String, String)>) -> Seq<(Seq<u8>, Seq<u8>)> {
    es.map_values(|e: (String, String)| (encode_utf8(e.0@), encode_utf8(e.1@)))
}

/// A scan between records.
pub open spec fn scan_clean(done: Seq<(Seq<u8>, Seq<u8>)>) -> Scan {
    Scan { done, key: Seq::empty(), value: Seq::empty(), colon: false }
}

/// An ASCII character that a text lacks is a byte that its UTF-8 lacks:
/// every byte of a longer encoding has its high bit set.
proof fn lemma_utf8_lacks(cs: Seq<char>, c: char)
    requires
        (c as u32) < 0x80,
        !cs.contains(c),
    ensures
        forall|i: int| 0 <= i < encode_utf8(cs).len() ==> encode_utf8(cs)[i] != (c as u32) as u8,
    decreases cs.len(),
{
    if cs.len() > 0 {
        let rest = cs.drop_first();
        assert(!rest.contains(c)) by {
            if rest.contains(c) {
                let j = choose|j: int| 0 <= j < rest.len() && rest[j] == c;
                assert(cs[j + 1] == c);
            }
        }
        lemma_utf8_lacks(rest, c);
        let s = cs[0] as u32;
        let x = c as u32;
        assert(cs[0] != c);
        char_u32_cast(cs[0], s);
        char_u32_cast(c, x);
        char_is_scalar(cs[0]);
        assert(s != x);
        let head = encode_scalar(s);
        assert forall|i: int| 0 <= i < head.len() implies head[i] != x as u8 by {
            if s <= 0x7F {
                assert(s <= 0x7F ==> (s & 0x7F) == s) by (bit_vector);
                assert(x < 0x80 && s <= 0x7F && s != x ==> (s as u8) != (x as u8)) by (bit_vector);
            } else {
                assert(forall|y: u8| #[trigger] (0x80u8 | y) >= 0x80u8) by (bit_vector);
                assert(forall|y: u8| #[trigger] (0xC0u8 | y) >= 0x80u8) by (bit_vector);
                assert(forall|y: u8| #[trigger] (0xE0u8 | y) >= 0x80u8) by (bit_vector);
                assert(forall|y: u8| #[trigger] (0xF0u8 | y) >= 0x80u8) by (bit_vector);
                assert(x < 0x80 ==> (x as u8) < 0x80u8) by (bit_vector);
            }
        }
        assert(encode_utf8(cs) == head + encode_utf8(rest));
    }
}

/// Key bytes without colon or newline extend the key of a scan.
proof fn lemma_scan_key(d: Seq<(Seq<u8>, Seq<u8>)>, k: Seq<u8>, b: Seq<u8>)
    requires
        forall|i: int| 0 <= i < b.len() ==> b[i] != COLON && b[i] != NEWLINE,
    ensures
        scan_from((Scan { done: d, key: k, value: Seq::empty(), colon: false }), b) == (Scan {
            done: d,
            key: k + b,
            value: Seq::empty(),
            colon: false,
        }),
    decreases b.len(),
{
    if b.len() == 0 {
        assert(k + b == k);
    } else {
        lemma_scan_key(d, k, b.drop_last());
        assert(k + b == (k + b.drop_last()).push(b.last()));
    }
}

/// Value bytes without newline extend the value of a scan past its colon.
proof fn lemma_scan_value(d: Seq<(Seq<u8>, Seq<u8>)>, k: Seq<u8>, v: Seq<u8>, b: Seq<u8>)
    requires
        forall|i: int| 0 <= i < b.len() ==> b[i] != NEWLINE,
    ensures
        scan_from((Scan { done: d, key: k, value: v, colon: true }), b) == (Scan {
            done: d,
            key: k,
            value: v + b,
            colon: true,
        }),
    decreases b.len(),
{
    if b.len() == 0 {
        assert(v + b == v);
    } else {
        lemma_scan_value(d, k, v, b.drop_last());
        assert(v + b == (v + b.drop_last()).push(b.last()));
    }
}

/// Scanning one record of storable text closes exactly that record.
proof fn lemma_scan_record(d: Seq<(Seq<u8>, Seq<u8>)>, key: Seq<char>, value: Seq<char>)
    requires
        !key.contains(':'),
        !key.contains('\n'),
        !value.contains('\n'),
    ensures
        scan_from(scan_clean(d), record_bytes(key, value)) == scan_clean(
            d.push((encode_utf8(key), encode_utf8(value))),
        ),
{
    reveal_with_fuel(scan_from, 2);
    let kb = encode_utf8(key);
    let vb = encode_utf8(value);
    lemma_utf8_lacks(key, ':');
    lemma_utf8_lacks(key, '\n');
    lemma_utf8_lacks(value, '\n');
    lemma_scan_key(d, Seq::empty(), kb);
    assert(Seq::<u8>::empty() + kb == kb);
    let s1 = Scan { done: d, key: kb, value: Seq::empty(), colon: false };
    assert(scan_from(scan_clean(d), kb) == s1);
    lemma_scan_concat(scan_clean(d), kb, seq![COLON]);
    assert(seq![COLON].drop_last() == Seq::<u8>::empty());
    assert(seq![COLON].last() == COLON);
    let s2 = Scan { done: d, key: kb, value: Seq::empty(), colon: true };
    assert(scan_from(s1, seq![COLON]) == s2);
    lemma_scan_value(d, kb, Seq::empty(), vb);
    assert(Seq::<u8>::empty() + vb == vb);
    lemma_scan_concat(scan_clean(d), kb + seq![COLON], vb);
    let s3 = Scan { done: d, key: kb, value: vb, colon: true };
    lemma_scan_concat(scan_clean(d), kb + seq![COLON] + vb, seq![NEWLINE]);
    assert(seq![NEWLINE].drop_last() == Seq::<u8>::empty());
    assert(seq![NEWLINE].last() == NEWLINE);
    assert(scan_from(s3, seq![NEWLINE]) == scan_clean(d.push((kb, vb))));
}

/// The scan of storable entries' plain text ends between records, having
/// found exactly their records.
proof fn lemma_scan_serialized(es: Seq<(String, String)>)
    requires
        entries_storable(es),
    ensures
        scan_from(scan_start(), serialized(es)) == scan_clean(entry_records(es)),
    decreases es.len(),
{
    if es.len() == 0 {
        assert(entry_records(es) == Seq::<(Seq<u8>, Seq<u8>)>::empty());
    } else {
        let p = es.drop_last();
        assert(entries_storable(p)) by {
            assert forall|i: int| 0 <= i < p.len() implies !(#[trigger] p[i]).0@.contains(':')
                && !p[i].0@.contains('\n') && !p[i].1@.contains('\n') by {
                assert(p[i] == es[i]);
            }
        }
        lemma_scan_serialized(p);
        let e = es.last();
        assert(e == es[es.len() - 1]);
        lemma_scan_concat(scan_start(), serialized(p), record_bytes(e.0@, e.1@));
        lemma_scan_record(entry_records(p), e.0@, e.1@);
        assert(entry_records(p).push((encode_utf8(e.0@), encode_utf8(e.1@))) == entry_records(es));
    }
}

/// The byte records of entries read back as the entries' map.
proof fn lemma_records_map_entries(es: Seq<(String, String)>)
    ensures
        records_map(entry_records(es)) == Some(entries_map(es)),
    decreases es.len(),
{
    if es.len() > 0 {
        let p = es.drop_last();
        lemma_records_map_entries(p);
        assert(entry_records(es).drop_last() == entry_records(p));
        let e = es.last();
        encode_utf8_valid_utf8(e.0@);
        encode_utf8_valid_utf8(e.1@);
        encode_utf8_decode_utf8(e.0@);
        encode_utf8_decode_utf8(e.1@);
    }
}

/// An ASCII byte on its own is valid UTF-8.
proof fn lemma_ascii_byte_valid(c: char)
    requires
        (c as u32) < 0x80,
    ensures
        valid_utf8(seq![(c as u32) as u8]),
{
    let x = c as u32;
    let one = seq![c];
    assert(one.drop_first() =~= Seq::<char>::empty());
    assert(x < 0x80 ==> (x & 0x7F) == x) by (bit_vector);
    assert(one[0] == c);
    assert(encode_utf8(one.drop_first()) =~= Seq::<u8>::empty());
    assert(encode_scalar(x) =~= seq![x as u8]);
    assert(encode_utf8(one) =~= seq![x as u8]);
    encode_utf8_valid_utf8(one);
}

/// The plain text of any entries is valid UTF-8.
proof fn lemma_serialized_valid(es: Seq<(String, String)>)
    ensures
        valid_utf8(serialized(es)),
    decreases es.len(),
{
    if es.len() > 0 {
        lemma_serialized_valid(es.drop_last());
        let e = es.last();
        lemma_ascii_byte_valid(':');
        lemma_ascii_byte_valid('\n');
        encode_utf8_valid_utf8(e.0@);
        encode_utf8_valid_utf8(e.1@);
        valid_utf8_concat(encode_utf8(e.0@), seq![COLON]);
        valid_utf8_concat(encode_utf8(e.0@) + seq![COLON], encode_utf8(e.1@));
        valid_utf8_concat(encode_utf8(e.0@) + seq![COLON] + encode_utf8(e.1@), seq![NEWLINE]);
        valid_utf8_concat(serialized(es.drop_last()), record_bytes(e.0@, e.1@));
    } else {
        assert(serialized(es) =~= encode_utf8(Seq::<char>::empty()));
        encode_utf8_valid_utf8(Seq::<char>::empty());
    }
}

/// The plain text of storable entries reads back as exactly their map.
proof fn lemma_parse_serialized(es: Seq<(String, String)>)
    requires
        entries_storable(es),
    ensures
        parsed(serialized(es)) == Some(entries_map(es)),
{
    lemma_serialized_valid(es);
    lemma_scan_serialized(es);
    lemma_records_map_entries(es);
}

/// Overwriting: after storing `v1` and then `v2` under one key, the key
/// holds `v2` and every other key is as before.
pub proof fn lemma_overwrite(m: Map<Seq<char>, Seq<char>>, k: Seq<char>, v1: Seq<char>, v2: Seq<char>)
    ensures
        m.insert(k, v1).insert(k, v2) == m.insert(k, v2),
        m.insert(k, v1).insert(k, v2)[k] == v2,
{
    assert(m.insert(k, v1).insert(k, v2) =~= m.insert(k, v2));
}

/// Two stores under one key, applied one after the other in either order,
/// leave that key holding one of the two values, whole.
pub proof fn lemma_either_order(m: Map<Seq<char>, Seq<char>>, k: Seq<char>, v1: Seq<char>, v2: Seq<char>)
    ensures
        m.insert(k, v1).insert(k, v2)[k] == v2,
        m.insert(k, v2).insert(k, v1)[k] == v1,
        m.insert(k, v1).insert(k, v2).dom() == m.insert(k, v2).insert(k, v1).dom(),
{
    assert(m.insert(k, v1).insert(k, v2).dom() =~= m.insert(k, v2).insert(k, v1).dom());
}

/// How the errors of opening a vault come about.
#[derive(Debug, Clone, Copy, PartialEq, Eq, Structural)]
pub enum InitError {
    /// The derived key does not open the existing blob: a wrong password, or
    /// a corrupted blob.
    BadPassword,
    /// The blob opened, but its plain text holds a key or a value that is not
    /// valid UTF-8.
    Malformed,
}

/// The secrets of one vault, and the key that encrypts their blob.
pub struct Vault {
    crypt: Crypt,
    entries: Vec<(String, String)>,
}

impl View for Vault {
    type V = Map<Seq<char>, Seq<char>>;

    closed spec fn view(&self) -> Map<Seq<char>, Seq<char>> {
        entries_map(self.entries@)
    }
}

/// Appends bytes to a buffer.
fn append_bytes(out: &mut Vec<u8>, b: &[u8])
    ensures
        final(out)@ == old(out)@ + b@,
{
    let mut i: usize = 0;
    while i < b.len()
        invariant
            i <= b@.len(),
            out@ == old(out)@ + b@.subrange(0, i as int),
        decreases b@.len() - i,
    {
        out.push(b[i]);
        i = i + 1;
        assert(b@.subrange(0, i as int) == b@.subrange(0, i - 1) + seq![b@[i - 1]]);
    }
    assert(b@.subrange(0, b@.len() as int) == b@);
}

/// The salt that a salt file's text holds: `None` when the text is not
/// base64 or does not decode to exactly sixteen bytes.
pub fn salt_from_text(text: &str) -> (r: Option<[u8; 16]>)
    ensures
        r matches Some(s) ==> salt_of_text(text@) == Some(s@),
        r is None ==> salt_of_text(text@) is None,
        forall|b: Seq<u8>|
            b.len() == 16 && #[trigger] base64_text(b) == text@ ==> (r matches Some(s) && s@ == b),
{
    match base64_decode(text) {
        Some(bytes) => {
            if bytes.len() != 16 {
                return None;
            }
            let mut salt = [0u8; 16];
            let mut i: usize = 0;
            while i < 16
                invariant
                    i <= 16,
                    bytes@.len() == 16,
                    forall|j: int| 0 <= j < i ==> salt@[j] == bytes@[j],
                decreases 16 - i,
            {
                salt[i] = bytes[i];
                i = i + 1;
            }
            assert(salt@ == bytes@);
            Some(salt)
        },
        None => None,
    }
}

/// The text of a salt file for a salt.
pub fn salt_to_text(salt: &[u8; 16]) -> (r: String)
    ensures
        r@ == base64_text(salt@),
{
    base64_encode(salt.as_slice())
}

/// The salt of a vault from its salt file's text: the one written there when
/// it is valid, else a fresh random one together with the text to write back.
/// `None` only when no random salt could be drawn.
pub fn obtain_salt(text: &str) -> (r: Option<([u8; 16], Option<String>)>)
    ensures
        salt_of_text(text@) matches Some(s) ==> (r matches Some(p) && p.0@ == s && p.1 is None),
        salt_of_text(text@) is None ==> (r matches Some(p) ==> (p.1 matches Some(t) && t@
            == base64_text(p.0@))),
        forall|b: Seq<u8>|
            b.len() == 16 && #[trigger] base64_text(b) == text@ ==> (r matches Some(p) && p.0@ == b
                && p.1 is None),
{
    match salt_from_text(text) {
        Some(salt) => Some((salt, None)),
        None => match gen_salt() {
            Some(salt) => {
                let t = salt_to_text(&salt);
                Some((salt, Some(t)))
            },
            None => None,
        },
    }
}

impl Vault {
    /// The key this vault encrypts with.
    pub closed spec fn key(&self) -> Seq<u8> {
        self.crypt.key()
    }

    /// The plain text that the vault's blob seals: its records in storage order.
    pub closed spec fn plaintext(&self) -> Seq<u8> {
        serialized(self.entries@)
    }

    /// The keys of the vault in storage order.
    pub closed spec fn key_seq(&self) -> Seq<Seq<char>> {
        self.entries@.map_values(|e: (String, String)| e.0@)
    }

    /// The internal invariant: no two stored entries share a key.
    pub closed spec fn wf(&self) -> bool {
        keys_unique(self.entries@)
    }

    /// The position of `key` among the entries, if it is stored.
    fn find(&self, key: &str) -> (r: Option<usize>)
        requires
            self.wf(),
        ensures
            r matches Some(i) ==> i < self.entries@.len() && self.entries@[i as int].0@ == key@,
            r is None ==> forall|i: int|
                0 <= i < self.entries@.len() ==> (#[trigger] self.entries@[i]).0@ != key@,
    {
        let k = key.to_owned();
        let mut i: usize = 0;
        while i < self.entries.len()
            invariant
                i <= self.entries@.len(),
                k@ == key@,
                forall|j: int| 0 <= j < i ==> (#[trigger] self.entries@[j]).0@ != key@,
            decreases self.entries@.len() - i,
        {
            if self.entries[i].0.eq(&k) {
                return Some(i);
            }
            i = i + 1;
        }
        None
    }

    /// Puts a key and a value into the map, in place of any earlier value.
    fn insert_entry(&mut self, key: String, value: String)
        requires
            old(self).wf(),
        ensures
            final(self).wf(),
            final(self)@ == old(self)@.insert(key@, value@),
            final(self).key() == old(self).key(),
    {
        proof {
            lemma_entries_map(self.entries@);
        }
        match self.find(key.as_str()) {
            Some(i) => {
                let ghost es = self.entries@;
                self.entries.set(i, (key, value));
                let ghost ns = self.entries@;
                assert(keys_unique(ns)) by {
                    assert forall|a: int, b: int| 0 <= a < b < ns.len() implies (
                    #[trigger] ns[a]).0@ != (#[trigger] ns[b]).0@ by {
                        assert(es[a].0@ != es[b].0@);
                    }
                }
                proof {
                    lemma_entries_map(ns);
                }
                assert(entries_map(ns) =~= entries_map(es).insert(key@, value@)) by {
                    assert forall|k: Seq<char>| #[trigger]
                        entries_map(ns).dom().contains(k) implies entries_map(es).insert(
                        key@,
                        value@,
                    ).dom().contains(k) by {
                        let j = choose|j: int| 0 <= j < ns.len() && (#[trigger] ns[j]).0@ == k;
                        if j != i {
                            assert(ns[j] == es[j]);
                        }
                    }
                    assert forall|k: Seq<char>| #[trigger]
                        entries_map(es).insert(key@, value@).dom().contains(k) implies entries_map(
                        ns,
                    ).dom().contains(k) && entries_map(ns)[k] == entries_map(es).insert(
                        key@,
                        value@,
                    )[k] by {
                        if k == key@ {
                            assert(ns[i as int].0@ == k);
                        } else {
                            let j = choose|j: int| 0 <= j < es.len() && (#[trigger] es[j]).0@ == k;
                            assert(ns[j] == es[j]);
                        }
                    }
                }
            },
            None => {
                let ghost es = self.entries@;
                self.entries.push((key, value));
                let ghost ns = self.entries@;
                assert(ns.drop_last() == es);
                assert(keys_unique(ns)) by {
                    assert forall|a: int, b: int| 0 <= a < b < ns.len() implies (
                    #[trigger] ns[a]).0@ != (#[trigger] ns[b]).0@ by {
                        if b < es.len() {
                            assert(ns[a] == es[a] && ns[b] == es[b]);
                        } else {
                            assert(ns[a] == es[a]);
                        }
                    }
                }
            },
        }
    }

    /// Opens a vault from its password, its salt and the current content of
    /// its blob. An empty blob is an empty vault; otherwise the blob must open
    /// under the derived key, and its plain text must be readable.
    pub fn new(passwort: String, salt: [u8; 16], blob: Vec<u8>) -> (r: Result<Vault, InitError>)
        requires
            passwort@.len() <= MAX_SECRET_LEN / 4,
        ensures
            r matches Ok(v) ==> v.wf() && v.key() == vault_key(passwort@, salt@),
            blob@.len() == 0 ==> (r matches Ok(v) && v@ == Map::<Seq<char>, Seq<char>>::empty()),
            blob@.len() > 0 ==> (r == Err::<Vault, InitError>(InitError::BadPassword) <==> forall|
                p: Seq<u8>,
            | !#[trigger] seals(vault_key(passwort@, salt@), blob@, p)),
            blob@.len() > 0 && r is Ok ==> exists|p: Seq<u8>|
                opens_to(vault_key(passwort@, salt@), blob@, p) && valid_utf8(p) && parsed(p) == Some(
                    r->Ok_0@,
                ),
            blob@.len() > 0 && r == Err::<Vault, InitError>(InitError::Malformed) ==> exists|
                p: Seq<u8>,
            | opens_to(vault_key(passwort@, salt@), blob@, p) && parsed(p) is None,
    {
        let crypt = Crypt::new(passwort, salt);
        let mut vault = Vault { crypt, entries: Vec::new() };
        if blob.len() == 0 {
            return Ok(vault);
        }
        let ghost b = blob@;
        let ghost key = vault.key();
        assert(key == vault_key(passwort@, salt@));
        match vault.crypt.decrypt(blob) {
            Ok(plain) => {
                let ghost p = plain@;
                assert(opens_to(key, b, p));
                assert(seals(key, b, p));
                match vault.load(plain) {
                    Ok(()) => Ok(vault),
                    Err(e) => {
                        assert(e == InitError::Malformed);
                        Err(e)
                    },
                }
            },
            Err(_) => Err(InitError::BadPassword),
        }
    }

    /// Adds a closed record, when both its key and its value are UTF-8.
    fn close_record(&mut self, key: Vec<u8>, value: Vec<u8>) -> (ok: bool)
        requires
            old(self).wf(),
        ensures
            final(self).wf(),
            final(self).key() == old(self).key(),
            ok <==> valid_utf8(key@) && valid_utf8(value@),
            ok ==> final(self)@ == old(self)@.insert(decode_utf8(key@), decode_utf8(value@)),
    {
        match string_from_utf8(key) {
            Some(k) => match string_from_utf8(value) {
                Some(v) => {
                    self.insert_entry(k, v);
                    true
                },
                None => false,
            },
            None => false,
        }
    }

    /// Fills an empty vault from a plain text: `Malformed` when the text is
    /// not UTF-8.
    fn load(&mut self, plain: Vec<u8>) -> (r: Result<(), InitError>)
        requires
            old(self).wf(),
            old(self)@ == Map::<Seq<char>, Seq<char>>::empty(),
        ensures
            final(self).wf(),
            final(self).key() == old(self).key(),
            r is Ok <==> parsed(plain@) is Some,
            r is Ok ==> parsed(plain@) == Some(final(self)@),
            r is Err ==> r == Err::<(), InitError>(InitError::Malformed),
    {
        let ghost original = plain@;
        let text = match string_from_utf8(plain) {
            Some(t) => t,
            None => return Err(InitError::Malformed),
        };
        let bytes = text.as_str().as_bytes();
        proof {
            decode_utf8_encode_utf8(original);
        }
        assert(bytes@ == original);
        self.load_records(bytes)
    }

    /// Fills an empty vault from the records of a UTF-8 plain text.
    fn load_records(&mut self, plain: &[u8]) -> (r: Result<(), InitError>)
        requires
            old(self).wf(),
            old(self)@ == Map::<Seq<char>, Seq<char>>::empty(),
            valid_utf8(plain@),
        ensures
            final(self).wf(),
            final(self).key() == old(self).key(),
            r is Ok <==> parsed(plain@) is Some,
            r is Ok ==> parsed(plain@) == Some(final(self)@),
            r is Err ==> r == Err::<(), InitError>(InitError::Malformed),
    {
        let ghost k0 = self.key();
        let mut key: Vec<u8> = Vec::new();
        let mut value: Vec<u8> = Vec::new();
        let mut colon = false;
        let mut i: usize = 0;
        while i < plain.len()
            invariant
                i <= plain@.len(),
                self.wf(),
                self.key() == k0,
                k0 == old(self).key(),
                valid_utf8(plain@),
                ({
                    let s = scan_from(scan_start(), plain@.subrange(0, i as int));
                    &&& s.key == key@
                    &&& s.value == value@
                    &&& s.colon == colon
                    &&& records_map(s.done) == Some(self@)
                }),
            decreases plain@.len() - i,
        {
            let ghost s0 = scan_from(scan_start(), plain@.subrange(0, i as int));
            let c = plain[i];
            assert(plain@.subrange(0, i + 1).drop_last() == plain@.subrange(0, i as int));
            if c == NEWLINE {
                if colon {
                    let k = key;
                    let v = value;
                    key = Vec::new();
                    value = Vec::new();
                    let ghost rs = s0.done.push((k@, v@));
                    assert(rs.drop_last() == s0.done);
                    let ok = self.close_record(k, v);
                    assert(self.key() == k0);
                    if !ok {
                        assert(records_map(rs) is None);
                        proof {
                            lemma_records_none_extends(plain@, i as int + 1);
                            assert(parsed(plain@) is None);
                        }
                        return Err(InitError::Malformed);
                    }
                } else {
                    key = Vec::new();
                    value = Vec::new();
                }
                colon = false;
            } else if !colon && c == COLON {
                colon = true;
            } else if !colon {
                key.push(c);
            } else {
                value.push(c);
            }
            i = i + 1;
        }
        assert(plain@.subrange(0, plain@.len() as int) == plain@);
        if colon {
            let ghost s = scan_from(scan_start(), plain@);
            assert(s.done.push((s.key, s.value)).drop_last() == s.done);
            if !self.close_record(key, value) {
                return Err(InitError::Malformed);
            }
        }
        Ok(())
    }
    /// The plain text of the vault: one `key:value` record per entry.
    fn serialize(&self) -> (r: Vec<u8>)
        ensures
            r@ == self.plaintext(),
    {
        let mut out: Vec<u8> = Vec::new();
        let mut i: usize = 0;
        while i < self.entries.len()
            invariant
                i <= self.entries@.len(),
                out@ == serialized(self.entries@.subrange(0, i as int)),
            decreases self.entries@.len() - i,
        {
            let ghost before = out@;
            append_bytes(&mut out, self.entries[i].0.as_str().as_bytes());
            out.push(COLON);
            append_bytes(&mut out, self.entries[i].1.as_str().as_bytes());
            out.push(NEWLINE);
            let ghost sub = self.entries@.subrange(0, i + 1);
            assert(sub.drop_last() == self.entries@.subrange(0, i as int));
            assert(out@ == before + record_bytes(sub.last().0@, sub.last().1@));
            i = i + 1;
        }
        assert(self.entries@.subrange(0, self.entries@.len() as int) == self.entries@);
        out
    }

    /// Encrypts the current plain text under a fresh nonce.
    fn seal_entries(&self) -> (r: Result<Vec<u8>, CryptError>)
        ensures
            r matches Ok(blob) ==> seals(self.key(), blob@, self.plaintext()),
            self.plaintext().len() > MAX_PLAIN_LEN ==> r is Err,
            r is Err ==> r == Err::<Vec<u8>, CryptError>(CryptError::Encrypt),
    {
        self.crypt.encrypt(self.serialize())
    }

    /// Stores `value` under `key`, replacing any earlier value, and returns
    /// the new blob to write in place of the old one. The change stands even
    /// when encryption fails.
    pub fn put(&mut self, key: &str, value: &str) -> (r: Result<Vec<u8>, CryptError>)
        requires
            old(self).wf(),
        ensures
            final(self).wf(),
            final(self)@ == old(self)@.insert(key@, value@),
            final(self).key() == old(self).key(),
            r matches Ok(blob) ==> seals(final(self).key(), blob@, final(self).plaintext()),
            final(self).plaintext().len() > MAX_PLAIN_LEN ==> r is Err,
            r is Err ==> r == Err::<Vec<u8>, CryptError>(CryptError::Encrypt),
    {
        self.insert_entry(key.to_owned(), value.to_owned());
        self.seal_entries()
    }

    /// Removes `key`. Returns `None`, with nothing to write, when the key was
    /// absent; else the new blob to write in place of the old one.
    pub fn del(&mut self, key: &str) -> (r: Option<Result<Vec<u8>, CryptError>>)
        requires
            old(self).wf(),
        ensures
            final(self).wf(),
            final(self)@ == old(self)@.remove(key@),
            final(self).key() == old(self).key(),
            r is None <==> !old(self)@.dom().contains(key@),
            !old(self)@.dom().contains(key@) ==> final(self)@ == old(self)@,
            r matches Some(Ok(blob)) ==> seals(final(self).key(), blob@, final(self).plaintext()),
            r is Some && final(self).plaintext().len() > MAX_PLAIN_LEN ==> r matches Some(Err(_)),
            r matches Some(Err(e)) ==> e == CryptError::Encrypt,
    {
        proof {
            lemma_entries_map(self.entries@);
        }
        match self.find(key) {
            Some(i) => {
                let ghost es = self.entries@;
                self.entries.remove(i);
                let ghost ns = self.entries@;
                assert(keys_unique(ns)) by {
                    assert forall|a: int, b: int| 0 <= a < b < ns.len() implies (
                    #[trigger] ns[a]).0@ != (#[trigger] ns[b]).0@ by {
                        if b < i {
                            assert(ns[a] == es[a] && ns[b] == es[b]);
                        } else if a < i {
                            assert(ns[a] == es[a] && ns[b] == es[b + 1]);
                        } else {
                            assert(ns[a] == es[a + 1] && ns[b] == es[b + 1]);
                        }
                    }
                }
                proof {
                    lemma_entries_map(ns);
                }
                assert(entries_map(ns) =~= entries_map(es).remove(key@)) by {
                    assert forall|k: Seq<char>| #[trigger]
                        entries_map(ns).dom().contains(k) implies entries_map(es).remove(
                        key@,
                    ).dom().contains(k) && entries_map(ns)[k] == entries_map(es)[k] by {
                        let j = choose|j: int| 0 <= j < ns.len() && (#[trigger] ns[j]).0@ == k;
                        if j < i {
                            assert(ns[j] == es[j]);
                        } else {
                            assert(ns[j] == es[j + 1]);
                        }
                    }
                    assert forall|k: Seq<char>| #[trigger]
                        entries_map(es).remove(key@).dom().contains(k) implies entries_map(
                        ns,
                    ).dom().contains(k) by {
                        let j = choose|j: int| 0 <= j < es.len() && (#[trigger] es[j]).0@ == k;
                        if j < i {
                            assert(ns[j] == es[j]);
                        } else {
                            assert(j != i);
                            assert(ns[j - 1] == es[j]);
                        }
                    }
                }
                Some(self.seal_entries())
            },
            None => {
                assert(entries_map(self.entries@).remove(key@) =~= entries_map(self.entries@));
                None
            },
        }
    }

    /// The value stored under `key`, if any. Never touches the blob.
    pub fn get(&self, key: &str) -> (r: Option<&str>)
        requires
            self.wf(),
        ensures
            r is Some <==> self@.dom().contains(key@),
            r matches Some(v) ==> v@ == self@[key@],
    {
        proof {
            lemma_entries_map(self.entries@);
        }
        match self.find(key) {
            Some(i) => Some(self.entries[i].1.as_str()),
            None => None,
        }
    }

    /// All keys, joined by single spaces; the empty string for an empty vault.
    pub fn lst(&self) -> (r: String)
        requires
            self.wf(),
        ensures
            r@ == joined(self.key_seq()),
            self.key_seq().to_set() == self@.dom(),
            self.key_seq().len() == self@.dom().len(),
            self.key_seq().no_duplicates(),
    {
        let mut out = String::new();
        let mut i: usize = 0;
        while i < self.entries.len()
            invariant
                i <= self.entries@.len(),
                out@ == joined(self.key_seq().subrange(0, i as int)),
            decreases self.entries@.len() - i,
        {
            if i > 0 {
                push_str(&mut out, " ");
            }
            push_str(&mut out, self.entries[i].0.as_str());
            let ghost sub = self.key_seq().subrange(0, i + 1);
            assert(sub.drop_last() == self.key_seq().subrange(0, i as int));
            proof {
                reveal_strlit(" ");
            }
            i = i + 1;
        }
        assert(self.key_seq().subrange(0, self.entries@.len() as int) == self.key_seq());
        proof {
            self.lemma_key_seq();
        }
        out
    }

    /// Reading back: the plain text of a vault whose map is storable parses
    /// to exactly that map.
    pub proof fn lemma_round_trip(&self)
        requires
            self.wf(),
            storable(self@),
        ensures
            parsed(self.plaintext()) == Some(self@),
    {
        lemma_entries_map(self.entries@);
        assert(entries_storable(self.entries@)) by {
            assert forall|i: int| 0 <= i < self.entries@.len() implies !(
            #[trigger] self.entries@[i]).0@.contains(':') && !self.entries@[i].0@.contains('\n')
                && !self.entries@[i].1@.contains('\n') by {
                assert(self@.dom().contains(self.entries@[i].0@));
            }
        }
        lemma_parse_serialized(self.entries@);
    }

    /// Restart: when a blob that a vault wrote is opened again by a vault
    /// with the same key (the same password and salt), the opened vault holds
    /// the same map, provided the map is storable.
    pub proof fn lemma_restart(&self, blob: Seq<u8>, reopened: &Vault)
        requires
            self.wf(),
            storable(self@),
            seals(self.key(), blob, self.plaintext()),
            exists|p: Seq<u8>| opens_to(self.key(), blob, p) && parsed(p) == Some(reopened@),
        ensures
            reopened@ == self@,
    {
        self.lemma_round_trip();
        let p = choose|p: Seq<u8>| opens_to(self.key(), blob, p) && parsed(p) == Some(reopened@);
        assert(seals(self.key(), blob, p));
    }

    /// The stored keys are exactly the map's keys, each once: this ties the
    /// order that `lst` reports to the map.
    pub proof fn lemma_key_seq(&self)
        requires
            self.wf(),
        ensures
            self.key_seq().to_set() == self@.dom(),
            self.key_seq().len() == self@.dom().len(),
            self.key_seq().no_duplicates(),
    {
        let ks = self.key_seq();
        let es = self.entries@;
        lemma_entries_map(es);
        assert(ks.no_duplicates()) by {
            assert forall|a: int, b: int| 0 <= a < ks.len() && 0 <= b < ks.len() && a != b implies
                ks[a] != ks[b] by {
                if a < b {
                    assert(es[a].0@ != es[b].0@);
                } else {
                    assert(es[b].0@ != es[a].0@);
                }
            }
        }
        assert(ks.to_set() =~= self@.dom()) by {
            assert forall|k: Seq<char>| ks.to_set().contains(k) implies self@.dom().contains(k) by {
                let j = choose|j: int| 0 <= j < ks.len() && ks[j] == k;
                assert(es[j].0@ == k);
            }
            assert forall|k: Seq<char>| self@.dom().contains(k) implies ks.to_set().contains(k) by {
                let j = choose|j: int| 0 <= j < es.len() && (#[trigger] es[j]).0@ == k;
                assert(ks[j] == k);
            }
        }
        ks.unique_seq_to_set();
    }
}

} // verus!

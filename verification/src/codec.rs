use vstd::prelude::*;

use vstd::slice::{slice_subrange, slice_to_vec};
use vstd::string::StringSliceAdditionalSpecFns;
use vstd::utf8::{decode_utf8, encode_utf8, encode_utf8_decode_utf8, encode_utf8_valid_utf8, valid_utf8};

use crate::accounts::{AccountBook, AccountV, Entry, EntryV, unique_names};
use crate::errors::StoreError;

verus! {

// The payload format: a count of entries, then for each entry its
// username, password and notes in that order. Every string is its UTF-8
// bytes prefixed by their number as eight little-endian bytes; the count
// uses the same eight-byte form. Nothing may follow the last entry.

/// Eight little-endian bytes of a 64-bit value.
#[verifier::opaque]
pub open spec fn le64_bytes(x: u64) -> Seq<u8> {
    seq![
        (x & 0xff) as u8,
        ((x >> 8) & 0xff) as u8,
        ((x >> 16) & 0xff) as u8,
        ((x >> 24) & 0xff) as u8,
        ((x >> 32) & 0xff) as u8,
        ((x >> 40) & 0xff) as u8,
        ((x >> 48) & 0xff) as u8,
        ((x >> 56) & 0xff) as u8,
    ]
}

/// The 64-bit value held by the first eight bytes, little-endian.
#[verifier::opaque]
pub open spec fn le64_val(b: Seq<u8>) -> u64
    recommends
        b.len() >= 8,
{
    (b[0] as u64)
    | ((b[1] as u64) << 8)
    | ((b[2] as u64) << 16)
    | ((b[3] as u64) << 24)
    | ((b[4] as u64) << 32)
    | ((b[5] as u64) << 40)
    | ((b[6] as u64) << 48)
    | ((b[7] as u64) << 56)
}

pub open spec fn enc_str(s: Seq<char>) -> Seq<u8> {
    le64_bytes(encode_utf8(s).len() as u64) + encode_utf8(s)
}

pub open spec fn enc_entry(e: EntryV) -> Seq<u8> {
    enc_str(e.username) + enc_str(e.account.password) + enc_str(e.account.notes)
}

pub open spec fn enc_entries(es: Seq<EntryV>) -> Seq<u8>
    decreases es.len(),
{
    if es.len() == 0 {
        Seq::empty()
    } else {
        enc_entry(es[0]) + enc_entries(es.drop_first())
    }
}

/// The encoding of a whole account list.
pub open spec fn encode_spec(es: Seq<EntryV>) -> Seq<u8> {
    le64_bytes(es.len() as u64) + enc_entries(es)
}

pub open spec fn dec_u64(b: Seq<u8>) -> Option<(u64, Seq<u8>)> {
    if b.len() >= 8 {
        Some((le64_val(b), b.skip(8)))
    } else {
        None
    }
}

pub open spec fn dec_str(b: Seq<u8>) -> Option<(Seq<char>, Seq<u8>)> {
    match dec_u64(b) {
        Some((n, r)) => if n <= r.len() && valid_utf8(r.take(n as int)) {
            Some((decode_utf8(r.take(n as int)), r.skip(n as int)))
        } else {
            None
        },
        None => None,
    }
}

pub open spec fn dec_entry(b: Seq<u8>) -> Option<(EntryV, Seq<u8>)> {
    match dec_str(b) {
        Some((u, r1)) => match dec_str(r1) {
            Some((p, r2)) => match dec_str(r2) {
                Some((n, r3)) => Some(
                    (EntryV { username: u, account: AccountV { password: p, notes: n } }, r3),
                ),
                None => None,
            },
            None => None,
        },
        None => None,
    }
}

pub open spec fn dec_entries(k: nat, b: Seq<u8>) -> Option<(Seq<EntryV>, Seq<u8>)>
    decreases k,
{
    if k == 0 {
        Some((Seq::empty(), b))
    } else {
        match dec_entry(b) {
            Some((e, r)) => match dec_entries((k - 1) as nat, r) {
                Some((es, r2)) => Some((seq![e] + es, r2)),
                None => None,
            },
            None => None,
        }
    }
}

/// The account list held by a payload: `None` exactly when the bytes are
/// not a complete, well-formed encoding with unique usernames.
pub open spec fn decode_spec(b: Seq<u8>) -> Option<Seq<EntryV>> {
    match dec_u64(b) {
        Some((n, r)) => match dec_entries(n as nat, r) {
            Some((es, rest)) => if rest.len() == 0 && unique_names(es) {
                Some(es)
            } else {
                None
            },
            None => None,
        },
        None => None,
    }
}

/// A string's UTF-8 form fits the eight-byte length prefix; every string
/// held in memory satisfies this machine limit.
pub open spec fn entry_bounded(e: EntryV) -> bool {
    &&& encode_utf8(e.username).len() <= u64::MAX
    &&& encode_utf8(e.account.password).len() <= u64::MAX
    &&& encode_utf8(e.account.notes).len() <= u64::MAX
}

pub open spec fn entries_bounded(es: Seq<EntryV>) -> bool {
    forall|i: int| 0 <= i < es.len() ==> entry_bounded(#[trigger] es[i])
}

proof fn lemma_le64(x: u64)
    ensures
        le64_bytes(x).len() == 8,
        le64_val(le64_bytes(x)) == x,
{
    reveal(le64_bytes);
    reveal(le64_val);
    let b = le64_bytes(x);
    assert(b[0] == (x & 0xff) as u8);
    assert(b[1] == ((x >> 8) & 0xff) as u8);
    assert(b[2] == ((x >> 16) & 0xff) as u8);
    assert(b[3] == ((x >> 24) & 0xff) as u8);
    assert(b[4] == ((x >> 32) & 0xff) as u8);
    assert(b[5] == ((x >> 40) & 0xff) as u8);
    assert(b[6] == ((x >> 48) & 0xff) as u8);
    assert(b[7] == ((x >> 56) & 0xff) as u8);
    assert((((x & 0xff) as u8) as u64)
        | ((((x >> 8) & 0xff) as u8) as u64) << 8
        | ((((x >> 16) & 0xff) as u8) as u64) << 16
        | ((((x >> 24) & 0xff) as u8) as u64) << 24
        | ((((x >> 32) & 0xff) as u8) as u64) << 32
        | ((((x >> 40) & 0xff) as u8) as u64) << 40
        | ((((x >> 48) & 0xff) as u8) as u64) << 48
        | ((((x >> 56) & 0xff) as u8) as u64) << 56 == x) by (bit_vector);
}

proof fn lemma_dec_u64_prefix(x: u64, rest: Seq<u8>)
    ensures
        dec_u64(le64_bytes(x) + rest) == Some((x, rest)),
{
    reveal(le64_bytes);
    reveal(le64_val);
    lemma_le64(x);
    let c = le64_bytes(x) + rest;
    assert(c[0] == le64_bytes(x)[0]);
    assert(c[1] == le64_bytes(x)[1]);
    assert(c[2] == le64_bytes(x)[2]);
    assert(c[3] == le64_bytes(x)[3]);
    assert(c[4] == le64_bytes(x)[4]);
    assert(c[5] == le64_bytes(x)[5]);
    assert(c[6] == le64_bytes(x)[6]);
    assert(c[7] == le64_bytes(x)[7]);
    assert(le64_val(c) == x);
    assert(c.skip(8) =~= rest);
}

proof fn lemma_dec_str_prefix(s: Seq<char>, rest: Seq<u8>)
    requires
        encode_utf8(s).len() <= u64::MAX,
    ensures
        dec_str(enc_str(s) + rest) == Some((s, rest)),
{
    let u = encode_utf8(s);
    let n = u.len() as u64;
    lemma_le64(n);
    assert(enc_str(s) + rest =~= le64_bytes(n) + (u + rest));
    lemma_dec_u64_prefix(n, u + rest);
    assert((u + rest).take(n as int) =~= u);
    assert((u + rest).skip(n as int) =~= rest);
    encode_utf8_valid_utf8(s);
    encode_utf8_decode_utf8(s);
}

proof fn lemma_dec_entry_prefix(e: EntryV, rest: Seq<u8>)
    requires
        entry_bounded(e),
    ensures
        dec_entry(enc_entry(e) + rest) == Some((e, rest)),
{
    let su = enc_str(e.username);
    let sp = enc_str(e.account.password);
    let sn = enc_str(e.account.notes);
    assert(enc_entry(e) + rest =~= su + (sp + (sn + rest)));
    lemma_dec_str_prefix(e.username, sp + (sn + rest));
    lemma_dec_str_prefix(e.account.password, sn + rest);
    lemma_dec_str_prefix(e.account.notes, rest);
}

#[verifier::rlimit(100)]
proof fn lemma_dec_entries_prefix(es: Seq<EntryV>, rest: Seq<u8>)
    requires
        entries_bounded(es),
    ensures
        dec_entries(es.len(), enc_entries(es) + rest) == Some((es, rest)),
    decreases es.len(),
{
    let c = enc_entries(es) + rest;
    if es.len() == 0 {
        assert(c =~= rest);
        assert(es =~= Seq::<EntryV>::empty());
        assert(dec_entries(0, rest) == Some((Seq::<EntryV>::empty(), rest)));
    } else {
        let tail = es.drop_first();
        let mid = enc_entries(tail) + rest;
        assert(c =~= enc_entry(es[0]) + mid);
        lemma_dec_entry_prefix(es[0], mid);
        assert(dec_entry(c) == Some((es[0], mid)));
        assert(entries_bounded(tail)) by {
            assert(forall|i: int| 0 <= i < tail.len() ==> #[trigger] tail[i] == es[i + 1]);
        }
        lemma_dec_entries_prefix(tail, rest);
        assert(dec_entries(tail.len(), mid) == Some((tail, rest)));
        assert(dec_entries(es.len(), c) == Some((seq![es[0]] + tail, rest)));
        assert(seq![es[0]] + tail =~= es);
    }
}

/// Round trip: decoding an encoded account list yields exactly the
/// original list, for every list with unique usernames (the bounds are
/// machine limits that any list held in memory meets).
pub proof fn lemma_codec_round_trip(es: Seq<EntryV>)
    requires
        unique_names(es),
        entries_bounded(es),
        es.len() <= u64::MAX,
    ensures
        decode_spec(encode_spec(es)) == Some(es),
{
    let n = es.len() as u64;
    lemma_dec_u64_prefix(n, enc_entries(es));
    assert(encode_spec(es) == le64_bytes(n) + enc_entries(es));
    lemma_dec_entries_prefix(es, Seq::empty());
    assert(enc_entries(es) + Seq::<u8>::empty() =~= enc_entries(es));
}

proof fn lemma_dec_entries_snoc(k: nat, b: Seq<u8>, es: Seq<EntryV>, r: Seq<u8>, e: EntryV, r2: Seq<u8>)
    requires
        dec_entries(k, b) == Some((es, r)),
        dec_entry(r) == Some((e, r2)),
    ensures
        dec_entries(k + 1, b) == Some((es.push(e), r2)),
    decreases k,
{
    if k == 0 {
        assert(es == Seq::<EntryV>::empty() && r == b);
        assert(dec_entries(0, r2) == Some((Seq::<EntryV>::empty(), r2)));
        assert(dec_entries(k + 1, b) == Some((seq![e] + Seq::<EntryV>::empty(), r2)));
        assert(seq![e] + Seq::<EntryV>::empty() =~= es.push(e));
    } else {
        let e0 = dec_entry(b)->Some_0.0;
        let rb = dec_entry(b)->Some_0.1;
        let es1 = dec_entries((k - 1) as nat, rb)->Some_0.0;
        assert(dec_entry(b) == Some((e0, rb)));
        assert(dec_entries((k - 1) as nat, rb) == Some((es1, r)));
        assert(es == seq![e0] + es1);
        lemma_dec_entries_snoc((k - 1) as nat, rb, es1, r, e, r2);
        assert(dec_entries(k, rb) == Some((es1.push(e), r2)));
        assert(dec_entries(k + 1, b) == Some((seq![e0] + es1.push(e), r2)));
        assert(seq![e0] + es1.push(e) =~= es.push(e));
    }
}

proof fn lemma_dec_entries_fail(k: nat, m: nat, b: Seq<u8>, es: Seq<EntryV>, r: Seq<u8>)
    requires
        k < m,
        dec_entries(k, b) == Some((es, r)),
        dec_entry(r) is None,
    ensures
        dec_entries(m, b) is None,
    decreases k,
{
    if k == 0 {
        assert(r == b);
    } else {
        let rb = dec_entry(b)->Some_0.1;
        let es1 = dec_entries((k - 1) as nat, rb)->Some_0.0;
        lemma_dec_entries_fail((k - 1) as nat, (m - 1) as nat, rb, es1, r);
    }
}

proof fn lemma_enc_entries_push(es: Seq<EntryV>, e: EntryV)
    ensures
        enc_entries(es.push(e)) == enc_entries(es) + enc_entry(e),
    decreases es.len(),
{
    if es.len() == 0 {
        assert(es.push(e)[0] == e);
        assert(es.push(e).drop_first() =~= Seq::<EntryV>::empty());
        assert(enc_entries(Seq::<EntryV>::empty()) == Seq::<u8>::empty());
        assert(enc_entries(es.push(e)) == enc_entry(e) + Seq::<u8>::empty());
        assert(enc_entry(e) + Seq::<u8>::empty() =~= enc_entries(es) + enc_entry(e));
    } else {
        assert(es.push(e)[0] == es[0]);
        assert(es.push(e).drop_first() =~= es.drop_first().push(e));
        lemma_enc_entries_push(es.drop_first(), e);
        assert(enc_entries(es.push(e)) == enc_entry(es[0]) + (enc_entries(es.drop_first())
            + enc_entry(e)));
        assert(enc_entry(es[0]) + (enc_entries(es.drop_first()) + enc_entry(e))
            =~= enc_entries(es) + enc_entry(e));
    }
}

/// Appends bytes to the output.
pub(crate) fn push_bytes(out: &mut Vec<u8>, b: &[u8])
    ensures
        final(out)@ == old(out)@ + b@,
{
    let n = b.len();
    for i in 0..n
        invariant
            n == b@.len(),
            out@ == old(out)@ + b@.take(i as int),
    {
        out.push(b[i]);
        proof {
            assert(old(out)@ + b@.take(i as int) + seq![b@[i as int]]
                =~= old(out)@ + b@.take(i + 1));
        }
    }
    proof {
        assert(b@.take(n as int) =~= b@);
    }
}

/// Appends the eight little-endian bytes of `x`.
fn push_le64(out: &mut Vec<u8>, x: u64)
    ensures
        final(out)@ == old(out)@ + le64_bytes(x),
{
    proof {
        lemma_le64(x);
    }
    proof {
        reveal(le64_bytes);
        assert(x & 0xff <= 0xff && (x >> 8) & 0xff <= 0xff && (x >> 16) & 0xff <= 0xff
            && (x >> 24) & 0xff <= 0xff && (x >> 32) & 0xff <= 0xff && (x >> 40) & 0xff <= 0xff
            && (x >> 48) & 0xff <= 0xff && (x >> 56) & 0xff <= 0xff) by (bit_vector);
    }
    out.push((x & 0xff) as u8);
    out.push(((x >> 8) & 0xff) as u8);
    out.push(((x >> 16) & 0xff) as u8);
    out.push(((x >> 24) & 0xff) as u8);
    out.push(((x >> 32) & 0xff) as u8);
    out.push(((x >> 40) & 0xff) as u8);
    out.push(((x >> 48) & 0xff) as u8);
    out.push(((x >> 56) & 0xff) as u8);
    proof {
        assert(final(out)@ =~= old(out)@ + le64_bytes(x));
    }
}

/// Appends the length-prefixed UTF-8 form of a string.
fn push_str_enc(out: &mut Vec<u8>, s: &str)
    ensures
        final(out)@ == old(out)@ + enc_str(s@),
        encode_utf8(s@).len() <= u64::MAX,
{
    let bytes = s.as_bytes();
    push_le64(out, bytes.len() as u64);
    push_bytes(out, bytes);
    proof {
        assert(final(out)@ =~= old(out)@ + enc_str(s@));
    }
}

/// Serializes a repository to its byte payload.
pub fn encode_accounts(book: &AccountBook) -> (r: Vec<u8>)
    ensures
        r@ == encode_spec(book@),
        entries_bounded(book@),
        book@.len() <= u64::MAX,
{
    let mut out: Vec<u8> = Vec::new();
    let n = book.len();
    push_le64(&mut out, n as u64);
    for i in 0..n
        invariant
            n == book@.len(),
            out@ == le64_bytes(n as u64) + enc_entries(book@.take(i as int)),
            forall|j: int| 0 <= j < i ==> entry_bounded(#[trigger] book@[j]),
    {
        let ghost pre = out@;
        let e = book.entry_at(i);
        push_str_enc(&mut out, e.username.as_str());
        push_str_enc(&mut out, e.account.password.as_str());
        push_str_enc(&mut out, e.account.notes.as_str());
        proof {
            assert(out@ =~= pre + enc_entry(book@[i as int]));
            lemma_enc_entries_push(book@.take(i as int), book@[i as int]);
            assert(book@.take(i as int).push(book@[i as int]) =~= book@.take(i + 1));
            assert(entry_bounded(book@[i as int]));
        }
    }
    proof {
        assert(book@.take(n as int) =~= book@);
        assert(Seq::<u8>::empty() + le64_bytes(n as u64) =~= le64_bytes(n as u64));
    }
    out
}

/// Turns UTF-8 bytes back into a string.
///
/// Relies on std's String::from_utf8: it succeeds exactly on valid UTF-8
/// and returns the string those bytes encode.
#[verifier::external_body]
fn bytes_to_string(v: Vec<u8>) -> (r: Option<String>)
    ensures
        match r {
            Some(s) => valid_utf8(v@) && s@ == decode_utf8(v@),
            None => !valid_utf8(v@),
        },
{
    match String::from_utf8(v) {
        Ok(s) => Some(s),
        Err(_) => None,
    }
}

/// Reads an eight-byte little-endian value at `pos`.
fn read_le64(bytes: &[u8], pos: usize) -> (r: Option<(u64, usize)>)
    requires
        pos <= bytes@.len(),
    ensures
        match r {
            Some(v) => pos + 8 == v.1 <= bytes@.len()
                && dec_u64(bytes@.skip(pos as int)) == Some((v.0, bytes@.skip(v.1 as int))),
            None => dec_u64(bytes@.skip(pos as int)) is None,
        },
{
    if bytes.len() - pos >= 8 {
        let x = (bytes[pos] as u64)
            | ((bytes[pos + 1] as u64) << 8)
            | ((bytes[pos + 2] as u64) << 16)
            | ((bytes[pos + 3] as u64) << 24)
            | ((bytes[pos + 4] as u64) << 32)
            | ((bytes[pos + 5] as u64) << 40)
            | ((bytes[pos + 6] as u64) << 48)
            | ((bytes[pos + 7] as u64) << 56);
        proof {
            reveal(le64_val);
            let b = bytes@.skip(pos as int);
            assert(b[0] == bytes@[pos as int]);
            assert(b[1] == bytes@[pos + 1]);
            assert(b[2] == bytes@[pos + 2]);
            assert(b[3] == bytes@[pos + 3]);
            assert(b[4] == bytes@[pos + 4]);
            assert(b[5] == bytes@[pos + 5]);
            assert(b[6] == bytes@[pos + 6]);
            assert(b[7] == bytes@[pos + 7]);
            assert(b.skip(8) =~= bytes@.skip(pos + 8));
        }
        Some((x, pos + 8))
    } else {
        None
    }
}

/// Reads a length-prefixed UTF-8 string at `pos`.
fn read_str(bytes: &[u8], pos: usize) -> (r: Option<(String, usize)>)
    requires
        pos <= bytes@.len(),
    ensures
        match r {
            Some(v) => pos <= v.1 <= bytes@.len()
                && dec_str(bytes@.skip(pos as int)) == Some((v.0@, bytes@.skip(v.1 as int))),
            None => dec_str(bytes@.skip(pos as int)) is None,
        },
{
    match read_le64(bytes, pos) {
        None => None,
        Some((n, p1)) => {
            if n <= (bytes.len() - p1) as u64 {
                let nn = n as usize;
                let chunk = slice_to_vec(slice_subrange(bytes, p1, p1 + nn));
                proof {
                    assert(chunk@ =~= bytes@.skip(p1 as int).take(n as int));
                }
                match bytes_to_string(chunk) {
                    Some(s) => {
                        proof {
                            assert(bytes@.skip(p1 as int).skip(n as int)
                                =~= bytes@.skip(p1 + nn));
                        }
                        Some((s, p1 + nn))
                    }
                    None => None,
                }
            } else {
                None
            }
        }
    }
}

/// Reads one entry at `pos`.
fn read_entry(bytes: &[u8], pos: usize) -> (r: Option<(Entry, usize)>)
    requires
        pos <= bytes@.len(),
    ensures
        match r {
            Some(v) => pos <= v.1 <= bytes@.len()
                && dec_entry(bytes@.skip(pos as int)) == Some((v.0@, bytes@.skip(v.1 as int))),
            None => dec_entry(bytes@.skip(pos as int)) is None,
        },
{
    match read_str(bytes, pos) {
        None => None,
        Some((username, p1)) => match read_str(bytes, p1) {
            None => None,
            Some((password, p2)) => match read_str(bytes, p2) {
                None => None,
                Some((notes, p3)) => Some(
                    (Entry { username, account: crate::accounts::Account { password, notes } }, p3),
                ),
            },
        },
    }
}

/// Parses a byte payload back into a repository; fails with `FormatError`
/// exactly when the bytes are not a complete, well-formed encoding with
/// unique usernames.
pub fn decode_accounts(bytes: &[u8]) -> (r: Result<AccountBook, StoreError>)
    ensures
        match r {
            Ok(book) => decode_spec(bytes@) == Some(book@) && book.wf(),
            Err(e) => e == StoreError::FormatError && decode_spec(bytes@) is None,
        },
{
    proof {
        assert(bytes@.skip(0) =~= bytes@);
    }
    match read_le64(bytes, 0) {
        None => Err(StoreError::FormatError),
        Some((count, start)) => {
            let mut entries: Vec<Entry> = Vec::new();
            let mut pos = start;
            let mut k: u64 = 0;
            let ghost rest0 = bytes@.skip(start as int);
            while k < count
                invariant
                    k <= count,
                    pos <= bytes@.len(),
                    rest0 == bytes@.skip(start as int),
                    dec_u64(bytes@) == Some((count, rest0)),
                    entries@.len() == k,
                    dec_entries(
                        k as nat,
                        rest0,
                    ) == Some(
                        (
                            Seq::new(entries@.len(), |i: int| entries@[i]@),
                            bytes@.skip(pos as int),
                        ),
                    ),
                decreases count - k,
            {
                let ghost evs = Seq::new(entries@.len(), |i: int| entries@[i]@);
                match read_entry(bytes, pos) {
                    None => {
                        proof {
                            lemma_dec_entries_fail(
                                k as nat,
                                count as nat,
                                rest0,
                                evs,
                                bytes@.skip(pos as int),
                            );
                        }
                        return Err(StoreError::FormatError);
                    }
                    Some((e, p2)) => {
                        proof {
                            lemma_dec_entries_snoc(
                                k as nat,
                                rest0,
                                evs,
                                bytes@.skip(pos as int),
                                e@,
                                bytes@.skip(p2 as int),
                            );
                        }
                        entries.push(e);
                        pos = p2;
                        k = k + 1;
                        proof {
                            assert(Seq::new(entries@.len(), |i: int| entries@[i]@)
                                =~= evs.push(entries@.last()@));
                        }
                    }
                }
            }
            if pos != bytes.len() {
                proof {
                    assert(bytes@.skip(pos as int).len() > 0);
                }
                return Err(StoreError::FormatError);
            }
            proof {
                assert(bytes@.skip(pos as int) =~= Seq::<u8>::empty());
            }
            match AccountBook::from_entries(entries) {
                Some(book) => Ok(book),
                None => Err(StoreError::FormatError),
            }
        }
    }
}

} // verus!

use vstd::prelude::*;

use base64::Engine;
use base64::engine::general_purpose::STANDARD;

use crate::codec::push_bytes;
use crate::crypto::SealedBox;
use crate::errors::StoreError;

verus! {

// The persisted document is one line of JSON with two text fields:
//     {"iv":"<base64 of the nonce>","encrypted_data":"<base64 of the ciphertext>"}
// Writing always produces this exact shape; parsing accepts it and
// nothing else.

/// The base64 text (standard alphabet, canonical padding) of a byte
/// string, as ASCII bytes.
pub uninterp spec fn b64_of(bytes: Seq<u8>) -> Seq<u8>;

/// The double-quote byte, which base64 text never contains.
pub open spec fn quote() -> u8 {
    34
}

/// Relies on base64's STANDARD engine encode: the text is a pure function
/// of the input, is over the standard alphabet (so never a quote), and no
/// other input encodes to the same text.
#[verifier::external_body]
fn b64_encode(data: &[u8]) -> (r: Vec<u8>)
    ensures
        r@ == b64_of(data@),
        forall|i: int| 0 <= i < r@.len() ==> r@[i] != quote(),
        forall|b2: Seq<u8>| b64_of(b2) == r@ ==> b2 == data@,
{
    STANDARD.encode(data).into_bytes()
}

/// Relies on base64's STANDARD engine decode: with canonical padding
/// required and trailing bits refused, it accepts exactly the texts that
/// encode produces, and returns the one byte string that encodes to the
/// input.
#[verifier::external_body]
pub(crate) fn b64_decode(text: &[u8]) -> (r: Result<Vec<u8>, StoreError>)
    ensures
        r matches Ok(v) ==> b64_of(v@) == text@
            && (forall|b2: Seq<u8>| b64_of(b2) == text@ ==> b2 == v@),
        r matches Err(e) ==> e == StoreError::FormatError
            && (forall|b: Seq<u8>| b64_of(b) != text@),
{
    match STANDARD.decode(text) {
        Ok(v) => Ok(v),
        Err(_) => Err(StoreError::FormatError),
    }
}

/// The seven bytes of `{"iv":"`.
pub open spec fn env_prefix() -> Seq<u8> {
    seq![123u8, 34u8, 105u8, 118u8, 34u8, 58u8, 34u8]
}

/// The twenty bytes of `","encrypted_data":"`.
pub open spec fn env_mid() -> Seq<u8> {
    seq![
        34u8, 44u8, 34u8, 101u8, 110u8, 99u8, 114u8, 121u8, 112u8, 116u8,
        101u8, 100u8, 95u8, 100u8, 97u8, 116u8, 97u8, 34u8, 58u8, 34u8,
    ]
}

/// The two bytes of `"}`.
pub open spec fn env_suffix() -> Seq<u8> {
    seq![34u8, 125u8]
}

/// The whole document holding the two text fields.
pub open spec fn envelope_doc(iv_text: Seq<u8>, data_text: Seq<u8>) -> Seq<u8> {
    env_prefix() + iv_text + env_mid() + data_text + env_suffix()
}

/// No double quote occurs; true of both fields of any written document.
pub open spec fn no_quotes(s: Seq<u8>) -> bool {
    forall|i: int| 0 <= i < s.len() ==> s[i] != quote()
}

/// Where each piece of a document stands.
proof fn lemma_envelope_positions(a: Seq<u8>, b: Seq<u8>)
    ensures
        envelope_doc(a, b).len() == 29 + a.len() as int + b.len() as int,
        envelope_doc(a, b).subrange(0, 7) == env_prefix(),
        envelope_doc(a, b).subrange(7, 7 + a.len() as int) == a,
        envelope_doc(a, b).subrange(7 + a.len() as int, 27 + a.len() as int) == env_mid(),
        envelope_doc(a, b).subrange(27 + a.len() as int, 27 + a.len() as int + b.len() as int) == b,
        envelope_doc(a, b)[7 + a.len() as int] == quote(),
        envelope_doc(a, b)[27 + a.len() as int + b.len() as int] == quote(),
        envelope_doc(a, b)[28 + a.len() as int + b.len() as int] == 125u8,
{
    let d = envelope_doc(a, b);
    assert(d.subrange(0, 7) =~= env_prefix());
    assert(d.subrange(7, 7 + a.len() as int) =~= a);
    assert(d.subrange(7 + a.len() as int, 27 + a.len() as int) =~= env_mid());
    assert(d.subrange(27 + a.len() as int, 27 + a.len() as int + b.len() as int) =~= b);
    assert(d[7 + a.len() as int] == d.subrange(7 + a.len() as int, 27 + a.len() as int)[0]);
    assert(d[27 + a.len() as int + b.len() as int] == env_suffix()[0]);
    assert(d[28 + a.len() as int + b.len() as int] == env_suffix()[1]);
}

/// The first quote at or after the prefix closes the first field.
proof fn lemma_first_quote_is_iv_end(doc: Seq<u8>, a: Seq<u8>, b: Seq<u8>, q1: int)
    requires
        doc == envelope_doc(a, b),
        no_quotes(a),
        7 <= q1 < doc.len(),
        doc[q1] == quote(),
        forall|j: int| 7 <= j < q1 ==> doc[j] != quote(),
    ensures
        q1 == 7 + a.len() as int,
{
    lemma_envelope_positions(a, b);
    assert(doc[7 + a.len() as int] == quote());
    if q1 < 7 + a.len() as int {
        assert(doc.subrange(7, 7 + a.len() as int)[q1 - 7] == doc[q1]);
        assert(a[q1 - 7] != quote());
        assert(false);
    }
}

/// The first quote at or after the middle closes the second field.
proof fn lemma_second_quote_is_data_end(doc: Seq<u8>, a: Seq<u8>, b: Seq<u8>, q2: int)
    requires
        doc == envelope_doc(a, b),
        no_quotes(b),
        27 + a.len() as int <= q2 < doc.len(),
        doc[q2] == quote(),
        forall|j: int| 27 + a.len() as int <= j < q2 ==> doc[j] != quote(),
    ensures
        q2 == 27 + a.len() as int + b.len() as int,
{
    lemma_envelope_positions(a, b);
    assert(doc[27 + a.len() as int + b.len() as int] == quote());
    if q2 < 27 + a.len() as int + b.len() as int {
        assert(doc.subrange(27 + a.len() as int, 27 + a.len() as int + b.len() as int)[q2 - 27 - a.len() as int] == doc[q2]);
        assert(b[q2 - 27 - a.len() as int] != quote());
        assert(false);
    }
}

/// A document splits into quote-free fields in at most one way.
pub proof fn lemma_envelope_split_unique(a: Seq<u8>, b: Seq<u8>, a2: Seq<u8>, b2: Seq<u8>)
    requires
        no_quotes(a),
        no_quotes(a2),
        envelope_doc(a, b) == envelope_doc(a2, b2),
    ensures
        a == a2,
        b == b2,
{
    let d = envelope_doc(a, b);
    lemma_envelope_positions(a, b);
    lemma_envelope_positions(a2, b2);
    if a.len() < a2.len() {
        assert(d.subrange(7, 7 + a2.len() as int)[a.len() as int] == d[7 + a.len() as int]);
        assert(a2[a.len() as int] != quote());
        assert(false);
    }
    if a2.len() < a.len() {
        assert(d.subrange(7, 7 + a.len() as int)[a2.len() as int] == d[7 + a2.len() as int]);
        assert(a[a2.len() as int] != quote());
        assert(false);
    }
    assert(a =~= a2);
    assert(b.len() == b2.len());
    assert(b =~= b2) by {
        assert(d.subrange(27 + a.len() as int, 27 + a.len() as int + b.len() as int) == b);
        assert(d.subrange(27 + a2.len() as int, 27 + a2.len() as int + b2.len() as int) == b2);
    }
}

fn push_env_prefix(out: &mut Vec<u8>)
    ensures
        final(out)@ == old(out)@ + env_prefix(),
{
    out.push(123);
    out.push(34);
    out.push(105);
    out.push(118);
    out.push(34);
    out.push(58);
    out.push(34);
    proof {
        assert(final(out)@ =~= old(out)@ + env_prefix());
    }
}

fn push_env_mid(out: &mut Vec<u8>)
    ensures
        final(out)@ == old(out)@ + env_mid(),
{
    out.push(34);
    out.push(44);
    out.push(34);
    out.push(101);
    out.push(110);
    out.push(99);
    out.push(114);
    out.push(121);
    out.push(112);
    out.push(116);
    out.push(101);
    out.push(100);
    out.push(95);
    out.push(100);
    out.push(97);
    out.push(116);
    out.push(97);
    out.push(34);
    out.push(58);
    out.push(34);
    proof {
        assert(final(out)@ =~= old(out)@ + env_mid());
    }
}

/// Renders a sealed box as the persisted document; both text fields are
/// quote-free, so the document parses back.
pub fn envelope_to_doc(sb: &SealedBox) -> (r: Vec<u8>)
    ensures
        r@ == envelope_doc(b64_of(sb.nonce@), b64_of(sb.ciphertext@)),
        no_quotes(b64_of(sb.nonce@)),
        no_quotes(b64_of(sb.ciphertext@)),
{
    let iv_text = b64_encode(sb.nonce.as_slice());
    let data_text = b64_encode(sb.ciphertext.as_slice());
    let mut doc: Vec<u8> = Vec::new();
    push_env_prefix(&mut doc);
    push_bytes(&mut doc, iv_text.as_slice());
    push_env_mid(&mut doc);
    push_bytes(&mut doc, data_text.as_slice());
    doc.push(34);
    doc.push(125);
    proof {
        assert(doc@ =~= envelope_doc(b64_of(sb.nonce@), b64_of(sb.ciphertext@)));
    }
    doc
}

/// First double quote at or after `from`.
fn find_quote(doc: &[u8], from: usize) -> (r: Option<usize>)
    requires
        from <= doc@.len(),
    ensures
        match r {
            Some(q) => from <= q < doc@.len() && doc@[q as int] == quote()
                && (forall|j: int| from <= j < q ==> doc@[j] != quote()),
            None => forall|j: int| from <= j < doc@.len() ==> doc@[j] != quote(),
        },
{
    let n = doc.len();
    let mut i = from;
    while i < n
        invariant
            from <= i <= n == doc@.len(),
            forall|j: int| from <= j < i ==> doc@[j] != quote(),
        decreases n - i,
    {
        if doc[i] == 34 {
            return Some(i);
        }
        i = i + 1;
    }
    None
}

/// True when `expected` stands in `doc` at `pos`.
fn bytes_at(doc: &[u8], pos: usize, expected: &[u8]) -> (r: bool)
    requires
        pos + expected@.len() <= doc@.len(),
    ensures
        r == (doc@.subrange(pos as int, pos + expected@.len()) =~= expected@),
{
    let n = expected.len();
    let dn = doc.len();
    for i in 0..n
        invariant
            n == expected@.len(),
            dn == doc@.len(),
            pos + n <= dn,
            forall|j: int| 0 <= j < i ==> doc@[pos + j] == expected@[j],
    {
        if doc[pos + i] != expected[i] {
            return false;
        }
    }
    true
}

fn env_mid_bytes() -> (r: Vec<u8>)
    ensures
        r@ == env_mid(),
{
    let mut v: Vec<u8> = Vec::new();
    push_env_mid(&mut v);
    proof {
        assert(Seq::<u8>::empty() + env_mid() =~= env_mid());
    }
    v
}

fn env_prefix_bytes() -> (r: Vec<u8>)
    ensures
        r@ == env_prefix(),
{
    let mut v: Vec<u8> = Vec::new();
    push_env_prefix(&mut v);
    proof {
        assert(Seq::<u8>::empty() + env_prefix() =~= env_prefix());
    }
    v
}

/// No pair of quote-free fields assembles to this document.
pub open spec fn no_split(doc: Seq<u8>) -> bool {
    forall|a: Seq<u8>, b: Seq<u8>|
        !(no_quotes(a) && no_quotes(b) && doc == envelope_doc(a, b))
}

/// Splits a persisted document into its two text fields: the unique pair
/// of quote-free fields that reassembles to exactly the given document,
/// with `FormatError` exactly when no such pair exists. Every document
/// written by [`envelope_to_doc`] is therefore accepted.
pub fn parse_envelope(doc: &[u8]) -> (r: Result<(Vec<u8>, Vec<u8>), StoreError>)
    ensures
        r matches Ok(p) ==> doc@ == envelope_doc(p.0@, p.1@) && no_quotes(p.0@) && no_quotes(p.1@),
        r matches Err(e) ==> e == StoreError::FormatError && no_split(doc@),
{
    let prefix = env_prefix_bytes();
    let mid = env_mid_bytes();
    if doc.len() < 7 {
        proof {
            assert forall|a: Seq<u8>, b: Seq<u8>|
                no_quotes(a) && no_quotes(b) implies doc@ != envelope_doc(a, b) by {
                lemma_envelope_positions(a, b);
            }
        }
        return Err(StoreError::FormatError);
    }
    if !bytes_at(doc, 0, prefix.as_slice()) {
        proof {
            assert forall|a: Seq<u8>, b: Seq<u8>|
                no_quotes(a) && no_quotes(b) implies doc@ != envelope_doc(a, b) by {
                if doc@ == envelope_doc(a, b) {
                    lemma_envelope_positions(a, b);
                    assert(doc@.subrange(0, 7) =~= env_prefix());
                    assert(false);
                }
            }
        }
        return Err(StoreError::FormatError);
    }
    let q1 = match find_quote(doc, 7) {
        Some(q) => q,
        None => {
            proof {
                assert forall|a: Seq<u8>, b: Seq<u8>|
                    no_quotes(a) && no_quotes(b) implies doc@ != envelope_doc(a, b) by {
                    if doc@ == envelope_doc(a, b) {
                        lemma_envelope_positions(a, b);
                        assert(doc@[7 + a.len() as int] == quote());
                        assert(false);
                    }
                }
            }
            return Err(StoreError::FormatError);
        }
    };
    if doc.len() - q1 < 22 {
        proof {
            assert forall|a: Seq<u8>, b: Seq<u8>|
                no_quotes(a) && no_quotes(b) implies doc@ != envelope_doc(a, b) by {
                if doc@ == envelope_doc(a, b) {
                    lemma_first_quote_is_iv_end(doc@, a, b, q1 as int);
                    lemma_envelope_positions(a, b);
                    assert(doc@.len() - q1 == 22 + b.len() as int);
                    assert(false);
                }
            }
        }
        return Err(StoreError::FormatError);
    }
    if !bytes_at(doc, q1, mid.as_slice()) {
        proof {
            assert forall|a: Seq<u8>, b: Seq<u8>|
                no_quotes(a) && no_quotes(b) implies doc@ != envelope_doc(a, b) by {
                if doc@ == envelope_doc(a, b) {
                    lemma_first_quote_is_iv_end(doc@, a, b, q1 as int);
                    lemma_envelope_positions(a, b);
                    assert(doc@.subrange(q1 as int, q1 + 20) =~= env_mid());
                    assert(false);
                }
            }
        }
        return Err(StoreError::FormatError);
    }
    let q2 = match find_quote(doc, q1 + 20) {
        Some(q) => q,
        None => {
            proof {
                assert forall|a: Seq<u8>, b: Seq<u8>|
                    no_quotes(a) && no_quotes(b) implies doc@ != envelope_doc(a, b) by {
                    if doc@ == envelope_doc(a, b) {
                        lemma_first_quote_is_iv_end(doc@, a, b, q1 as int);
                        lemma_envelope_positions(a, b);
                        assert(doc@[27 + a.len() as int + b.len() as int] == quote());
                        assert(false);
                    }
                }
            }
            return Err(StoreError::FormatError);
        }
    };
    if doc.len() - q2 != 2 {
        proof {
            assert forall|a: Seq<u8>, b: Seq<u8>|
                no_quotes(a) && no_quotes(b) implies doc@ != envelope_doc(a, b) by {
                if doc@ == envelope_doc(a, b) {
                    lemma_first_quote_is_iv_end(doc@, a, b, q1 as int);
                    lemma_second_quote_is_data_end(doc@, a, b, q2 as int);
                    lemma_envelope_positions(a, b);
                    assert(false);
                }
            }
        }
        return Err(StoreError::FormatError);
    }
    if doc[q2 + 1] != 125 {
        proof {
            assert forall|a: Seq<u8>, b: Seq<u8>|
                no_quotes(a) && no_quotes(b) implies doc@ != envelope_doc(a, b) by {
                if doc@ == envelope_doc(a, b) {
                    lemma_first_quote_is_iv_end(doc@, a, b, q1 as int);
                    lemma_second_quote_is_data_end(doc@, a, b, q2 as int);
                    lemma_envelope_positions(a, b);
                    assert(doc@[28 + a.len() as int + b.len() as int] == 125u8);
                    assert(false);
                }
            }
        }
        return Err(StoreError::FormatError);
    }
    let iv_text = slice_to_vec_range(doc, 7, q1);
    let data_text = slice_to_vec_range(doc, q1 + 20, q2);
    proof {
        assert(doc@ =~= envelope_doc(doc@.subrange(7, q1 as int), doc@.subrange(q1 + 20, q2 as int)));
    }
    Ok((iv_text, data_text))
}

/// Copies `doc[from..to]` out.
fn slice_to_vec_range(doc: &[u8], from: usize, to: usize) -> (r: Vec<u8>)
    requires
        from <= to <= doc@.len(),
    ensures
        r@ == doc@.subrange(from as int, to as int),
{
    let s = vstd::slice::slice_subrange(doc, from, to);
    vstd::slice::slice_to_vec(s)
}

} // verus!

use vstd::prelude::*;

use crate::accounts::{
    Account, AccountBook, AccountV, Entry, EntryV, clone_account, clone_entry, has_name,
    lemma_map_of_contains, lemma_map_of_index, map_of, unique_names,
};
use crate::codec::{decode_accounts, decode_spec, encode_accounts, encode_spec, entries_bounded,
    lemma_codec_round_trip};
use crate::crypto::{aes_gcm_seal, open_sealed, seal};
use crate::envelope::{
    b64_of, envelope_doc, envelope_to_doc, lemma_envelope_split_unique, no_quotes, no_split,
    parse_envelope,
};
use crate::errors::StoreError;

verus! {

// Every operation follows the original's pattern: decrypt and decode the
// persisted document (an absent file is an empty store), act on the map,
// and on a mutation hand back a freshly sealed document for the caller
// to persist. A failed operation hands nothing back, so the envelope on
// disk stays exactly as it was.

/// What the caller read from the backing file, if the file existed.
pub open spec fn file_view(file: Option<&[u8]>) -> Option<Seq<u8>> {
    match file {
        None => None,
        Some(d) => Some(d@),
    }
}

/// The document holds a sealing of some payload that decodes to exactly
/// the given entries under the given key.
pub open spec fn doc_loads_to(key: Seq<u8>, doc: Seq<u8>, es: Seq<EntryV>) -> bool {
    exists|nonce: Seq<u8>, ct: Seq<u8>, pt: Seq<u8>|
        #![auto]
        doc == envelope_doc(b64_of(nonce), b64_of(ct)) && nonce.len() == 12 && ct == aes_gcm_seal(
            key,
            nonce,
            pt,
        ) && decode_spec(pt) == Some(es)
}

/// The document holds a sealing of exactly the encoding of the given
/// entries under the given key.
pub open spec fn sealed_doc_for(key: Seq<u8>, doc: Seq<u8>, es: Seq<EntryV>) -> bool {
    exists|nonce: Seq<u8>, ct: Seq<u8>|
        #![auto]
        nonce.len() == 12 && doc == envelope_doc(b64_of(nonce), b64_of(ct)) && ct == aes_gcm_seal(
            key,
            nonce,
            encode_spec(es),
        )
}

/// One concrete sealing behind [`stored_doc`].
pub open spec fn stored_doc_at(
    key: Seq<u8>,
    doc: Seq<u8>,
    es: Seq<EntryV>,
    nonce: Seq<u8>,
    ct: Seq<u8>,
) -> bool {
    &&& nonce.len() == 12
    &&& no_quotes(b64_of(nonce))
    &&& no_quotes(b64_of(ct))
    &&& doc == envelope_doc(b64_of(nonce), b64_of(ct))
    &&& ct == aes_gcm_seal(key, nonce, encode_spec(es))
    &&& ct.len() < 0x800000000
}

/// The document is exactly what a save of the given entries produces:
/// a sealing, within the cipher's limits, of their encoding, framed with
/// quote-free base64 fields. [`save_accounts`] establishes this, and
/// [`load_accounts`] promises to recover exactly these entries from it.
pub open spec fn stored_doc(key: Seq<u8>, doc: Seq<u8>, es: Seq<EntryV>) -> bool {
    &&& unique_names(es)
    &&& entries_bounded(es)
    &&& es.len() <= u64::MAX
    &&& exists|nonce: Seq<u8>, ct: Seq<u8>| #![auto] stored_doc_at(key, doc, es, nonce, ct)
}

/// The store the caller's file content denotes: an absent file is the
/// empty store, a present one a saved document of the given entries.
pub open spec fn stored_state(key: Seq<u8>, file: Option<Seq<u8>>, es: Seq<EntryV>) -> bool {
    match file {
        None => es == Seq::<EntryV>::empty(),
        Some(doc) => stored_doc(key, doc, es),
    }
}

/// The entries a load of the given file content yields: an absent file
/// is the empty store.
pub open spec fn prior_entries(key: Seq<u8>, file: Option<Seq<u8>>, es: Seq<EntryV>) -> bool {
    match file {
        None => es == Seq::<EntryV>::empty(),
        Some(doc) => doc_loads_to(key, doc, es),
    }
}

/// Persistence round trip: a document sealed for some entries loads back
/// to exactly those entries under the same key.
pub proof fn lemma_saved_doc_loads_back(key: Seq<u8>, doc: Seq<u8>, es: Seq<EntryV>)
    requires
        sealed_doc_for(key, doc, es),
        unique_names(es),
        entries_bounded(es),
        es.len() <= u64::MAX,
    ensures
        doc_loads_to(key, doc, es),
{
    let (nonce, ct) = choose|nonce: Seq<u8>, ct: Seq<u8>|
        #![auto]
        nonce.len() == 12 && doc == envelope_doc(b64_of(nonce), b64_of(ct)) && ct == aes_gcm_seal(
            key,
            nonce,
            encode_spec(es),
        );
    lemma_codec_round_trip(es);
    assert(doc == envelope_doc(b64_of(nonce), b64_of(ct)) && nonce.len() == 12 && ct
        == aes_gcm_seal(key, nonce, encode_spec(es)) && decode_spec(encode_spec(es)) == Some(es));
}

/// The document splits into the two quote-free text fields.
pub open spec fn doc_fields(doc: Seq<u8>, a: Seq<u8>, b: Seq<u8>) -> bool {
    no_quotes(a) && no_quotes(b) && doc == envelope_doc(a, b)
}

/// Rebuilds the repository from the backing file's content; `None` means
/// the file does not exist and yields the empty store. A saved document
/// is owed success and yields exactly the entries it was saved from.
/// Each malformed-document class is owed its error: no quote-free field
/// split, a field that no bytes base64-encode to, a nonce that is not
/// twelve bytes, and a decrypted payload that is not a well-formed
/// account list are owed `FormatError`; a ciphertext that no plaintext
/// seals to under the key (wrong passphrase, or corrupted or tampered
/// data) is owed `AuthenticationError`.
pub fn load_accounts(key: &[u8; 32], file: Option<&[u8]>) -> (r: Result<AccountBook, StoreError>)
    ensures
        r matches Ok(book) ==> book.wf() && prior_entries(key@, file_view(file), book@),
        file is None ==> r is Ok,
        (file matches Some(doc) && no_split(doc@)) ==> r == Err::<AccountBook, StoreError>(
            StoreError::FormatError,
        ),
        r matches Err(e) ==> e == StoreError::FormatError || e == StoreError::AuthenticationError,
        forall|es: Seq<EntryV>| #![auto] stored_state(key@, file_view(file), es) ==> (
        r matches Ok(book) && book@ == es),
        file matches Some(doc) ==> (forall|a: Seq<u8>, b: Seq<u8>|
            #![trigger doc_fields(doc@, a, b)]
            doc_fields(doc@, a, b) && ((forall|x: Seq<u8>| b64_of(x) != a) || (forall|x: Seq<u8>|
                b64_of(x) != b)) ==> r == Err::<AccountBook, StoreError>(
                StoreError::FormatError,
            )),
        file matches Some(doc) ==> (forall|a: Seq<u8>, b: Seq<u8>, x: Seq<u8>|
            #![trigger doc_fields(doc@, a, b), b64_of(x)]
            doc_fields(doc@, a, b) && b64_of(x) == a && x.len() != 12 ==> r == Err::<
                AccountBook,
                StoreError,
            >(StoreError::FormatError)),
        file matches Some(doc) ==> (forall|x: Seq<u8>, c: Seq<u8>, p: Seq<u8>|
            #![trigger doc_fields(doc@, b64_of(x), b64_of(c)), aes_gcm_seal(key@, x, p)]
            doc_fields(doc@, b64_of(x), b64_of(c)) && x.len() == 12 && c == aes_gcm_seal(
                key@,
                x,
                p,
            ) && c.len() < 0x800000000 && decode_spec(p) is None ==> r == Err::<
                AccountBook,
                StoreError,
            >(StoreError::FormatError)),
        file matches Some(doc) ==> (forall|x: Seq<u8>, c: Seq<u8>|
            #![trigger doc_fields(doc@, b64_of(x), b64_of(c))]
            doc_fields(doc@, b64_of(x), b64_of(c)) && x.len() == 12 && c.len() < 0x800000000 && (
            forall|p: Seq<u8>| aes_gcm_seal(key@, x, p) != c) ==> r == Err::<
                AccountBook,
                StoreError,
            >(StoreError::AuthenticationError)),
{
    match file {
        None => {
            let book = AccountBook::new();
            Ok(book)
        }
        Some(doc) => {
            let fields = match parse_envelope(doc) {
                Ok(p) => p,
                Err(e) => {
                    proof {
                        assert forall|es: Seq<EntryV>| stored_doc(key@, doc@, es) implies false by {
                            let (wn, wc) = choose|wn: Seq<u8>, wc: Seq<u8>|
                                #![auto]
                                stored_doc_at(key@, doc@, es, wn, wc);
                            assert(!(no_quotes(b64_of(wn)) && no_quotes(b64_of(wc)) && doc@
                                == envelope_doc(b64_of(wn), b64_of(wc))));
                        }
                        assert forall|a: Seq<u8>, b: Seq<u8>| doc_fields(doc@, a, b)
                            implies false by {
                            assert(!(no_quotes(a) && no_quotes(b) && doc@ == envelope_doc(a, b)));
                        }
                    }
                    return Err(e);
                }
            };
            let (iv_text, data_text) = fields;
            let nonce = match crate::envelope::b64_decode(iv_text.as_slice()) {
                Ok(v) => v,
                Err(e) => {
                    proof {
                        assert forall|es: Seq<EntryV>| stored_doc(key@, doc@, es) implies false by {
                            let (wn, wc) = choose|wn: Seq<u8>, wc: Seq<u8>|
                                #![auto]
                                stored_doc_at(key@, doc@, es, wn, wc);
                            lemma_envelope_split_unique(b64_of(wn), b64_of(wc), iv_text@, data_text@);
                            assert(b64_of(wn) == iv_text@);
                        }
                        assert forall|x: Seq<u8>, c: Seq<u8>|
                            doc_fields(doc@, b64_of(x), b64_of(c)) implies false by {
                            lemma_envelope_split_unique(b64_of(x), b64_of(c), iv_text@, data_text@);
                            assert(b64_of(x) == iv_text@);
                        }
                    }
                    return Err(e);
                }
            };
            let ct = match crate::envelope::b64_decode(data_text.as_slice()) {
                Ok(v) => v,
                Err(e) => {
                    proof {
                        assert forall|es: Seq<EntryV>| stored_doc(key@, doc@, es) implies false by {
                            let (wn, wc) = choose|wn: Seq<u8>, wc: Seq<u8>|
                                #![auto]
                                stored_doc_at(key@, doc@, es, wn, wc);
                            lemma_envelope_split_unique(b64_of(wn), b64_of(wc), iv_text@, data_text@);
                            assert(b64_of(wc) == data_text@);
                        }
                        assert forall|x: Seq<u8>, c: Seq<u8>|
                            doc_fields(doc@, b64_of(x), b64_of(c)) implies false by {
                            lemma_envelope_split_unique(b64_of(x), b64_of(c), iv_text@, data_text@);
                            assert(b64_of(c) == data_text@);
                        }
                    }
                    return Err(e);
                }
            };
            if nonce.len() != 12 {
                proof {
                    assert forall|es: Seq<EntryV>| stored_doc(key@, doc@, es) implies false by {
                        let (wn, wc) = choose|wn: Seq<u8>, wc: Seq<u8>|
                            #![auto]
                            stored_doc_at(key@, doc@, es, wn, wc);
                        lemma_envelope_split_unique(b64_of(wn), b64_of(wc), iv_text@, data_text@);
                        assert(wn == nonce@);
                    }
                    assert forall|x: Seq<u8>, c: Seq<u8>|
                        doc_fields(doc@, b64_of(x), b64_of(c)) && x.len() == 12 implies false by {
                        lemma_envelope_split_unique(b64_of(x), b64_of(c), iv_text@, data_text@);
                        assert(b64_of(x) == iv_text@);
                        assert(x == nonce@);
                    }
                }
                return Err(StoreError::FormatError);
            }
            let pt = match open_sealed(key, nonce.as_slice(), ct.as_slice()) {
                Ok(p) => p,
                Err(e) => {
                    proof {
                        assert forall|es: Seq<EntryV>| stored_doc(key@, doc@, es) implies false by {
                            let (wn, wc) = choose|wn: Seq<u8>, wc: Seq<u8>|
                                #![auto]
                                stored_doc_at(key@, doc@, es, wn, wc);
                            lemma_envelope_split_unique(b64_of(wn), b64_of(wc), iv_text@, data_text@);
                            assert(wn == nonce@ && wc == ct@);
                            assert(aes_gcm_seal(key@, nonce@, encode_spec(es)) == ct@);
                        }
                        assert forall|a: Seq<u8>, b: Seq<u8>|
                            doc_fields(doc@, a, b) && ((forall|x: Seq<u8>| b64_of(x) != a) || (
                            forall|x: Seq<u8>| b64_of(x) != b)) implies false by {
                            lemma_envelope_split_unique(a, b, iv_text@, data_text@);
                            assert(b64_of(nonce@) == a && b64_of(ct@) == b);
                        }
                        assert forall|a: Seq<u8>, b: Seq<u8>, x: Seq<u8>|
                            doc_fields(doc@, a, b) && b64_of(x) == a && x.len() != 12
                            implies false by {
                            lemma_envelope_split_unique(a, b, iv_text@, data_text@);
                            assert(b64_of(x) == iv_text@);
                            assert(x == nonce@);
                        }
                        assert forall|x: Seq<u8>, c: Seq<u8>, p: Seq<u8>|
                            doc_fields(doc@, b64_of(x), b64_of(c)) && x.len() == 12 && c
                                == aes_gcm_seal(key@, x, p) && c.len() < 0x800000000
                            implies false by {
                            lemma_envelope_split_unique(b64_of(x), b64_of(c), iv_text@, data_text@);
                            assert(x == nonce@ && c == ct@);
                        }
                    }
                    return Err(e);
                }
            };
            let book = match decode_accounts(pt.as_slice()) {
                Ok(b) => b,
                Err(e) => {
                    proof {
                        assert forall|es: Seq<EntryV>| stored_doc(key@, doc@, es) implies false by {
                            let (wn, wc) = choose|wn: Seq<u8>, wc: Seq<u8>|
                                #![auto]
                                stored_doc_at(key@, doc@, es, wn, wc);
                            lemma_envelope_split_unique(b64_of(wn), b64_of(wc), iv_text@, data_text@);
                            assert(wn == nonce@ && wc == ct@);
                            assert(aes_gcm_seal(key@, nonce@, encode_spec(es)) == ct@);
                            assert(encode_spec(es) == pt@);
                            lemma_codec_round_trip(es);
                        }
                        assert forall|x: Seq<u8>, c: Seq<u8>|
                            doc_fields(doc@, b64_of(x), b64_of(c)) && x.len() == 12 && c.len()
                                < 0x800000000 && (forall|p: Seq<u8>| aes_gcm_seal(key@, x, p) != c)
                            implies false by {
                            lemma_envelope_split_unique(b64_of(x), b64_of(c), iv_text@, data_text@);
                            assert(x == nonce@ && c == ct@);
                            assert(aes_gcm_seal(key@, nonce@, pt@) == ct@);
                        }
                    }
                    return Err(e);
                }
            };
            proof {
                assert(doc@ == envelope_doc(b64_of(nonce@), b64_of(ct@)) && nonce@.len() == 12
                    && ct@ == aes_gcm_seal(key@, nonce@, pt@) && decode_spec(pt@) == Some(book@));
                assert forall|es: Seq<EntryV>| stored_doc(key@, doc@, es) implies book@ == es by {
                    let (wn, wc) = choose|wn: Seq<u8>, wc: Seq<u8>|
                        #![auto]
                        stored_doc_at(key@, doc@, es, wn, wc);
                    lemma_envelope_split_unique(b64_of(wn), b64_of(wc), iv_text@, data_text@);
                    assert(wn == nonce@ && wc == ct@);
                    assert(aes_gcm_seal(key@, nonce@, encode_spec(es)) == ct@);
                    assert(encode_spec(es) == pt@);
                    lemma_codec_round_trip(es);
                }
                assert forall|a: Seq<u8>, b: Seq<u8>|
                    doc_fields(doc@, a, b) && ((forall|x: Seq<u8>| b64_of(x) != a) || (
                    forall|x: Seq<u8>| b64_of(x) != b)) implies false by {
                    lemma_envelope_split_unique(a, b, iv_text@, data_text@);
                    assert(b64_of(nonce@) == a && b64_of(ct@) == b);
                }
                assert forall|a: Seq<u8>, b: Seq<u8>, x: Seq<u8>|
                    doc_fields(doc@, a, b) && b64_of(x) == a && x.len() != 12 implies false by {
                    lemma_envelope_split_unique(a, b, iv_text@, data_text@);
                    assert(b64_of(x) == iv_text@);
                    assert(x == nonce@);
                }
                assert forall|x: Seq<u8>, c: Seq<u8>, p: Seq<u8>|
                    doc_fields(doc@, b64_of(x), b64_of(c)) && x.len() == 12 && c == aes_gcm_seal(
                        key@,
                        x,
                        p,
                    ) && decode_spec(p) is None implies false by {
                    lemma_envelope_split_unique(b64_of(x), b64_of(c), iv_text@, data_text@);
                    assert(x == nonce@ && c == ct@);
                    assert(p == pt@);
                    assert(decode_spec(pt@) == Some(book@));
                }
                assert forall|x: Seq<u8>, c: Seq<u8>|
                    doc_fields(doc@, b64_of(x), b64_of(c)) && (forall|p: Seq<u8>|
                        aes_gcm_seal(key@, x, p) != c) implies false by {
                    lemma_envelope_split_unique(b64_of(x), b64_of(c), iv_text@, data_text@);
                    assert(x == nonce@ && c == ct@);
                    assert(aes_gcm_seal(key@, nonce@, pt@) == ct@);
                }
            }
            Ok(book)
        }
    }
}

/// Encodes, seals and frames the repository as a fresh persisted
/// document; the caller writes it to the backing file whole. Succeeds
/// whenever the encoded payload is within the cipher's machine limit,
/// and the document then loads back to exactly this repository.
pub fn save_accounts(key: &[u8; 32], book: &AccountBook) -> (r: Result<Vec<u8>, StoreError>)
    requires
        book.wf(),
    ensures
        r matches Ok(doc) ==> sealed_doc_for(key@, doc@, book@) && doc_loads_to(
            key@,
            doc@,
            book@,
        ),
        r matches Err(e) ==> e == StoreError::AuthenticationError,
        encode_spec(book@).len() <= 0xFFFFFFFF ==> r is Ok,
        encode_spec(book@).len() <= 0xFFFFFFFF ==> (r matches Ok(doc) ==> stored_doc(
            key@,
            doc@,
            book@,
        )),
{
    let payload = encode_accounts(book);
    let sb = match seal(key, payload.as_slice()) {
        Ok(sb) => sb,
        Err(e) => return Err(e),
    };
    let doc = envelope_to_doc(&sb);
    proof {
        assert(sb.nonce@.len() == 12 && doc@ == envelope_doc(b64_of(sb.nonce@), b64_of(
            sb.ciphertext@,
        )) && sb.ciphertext@ == aes_gcm_seal(key@, sb.nonce@, encode_spec(book@)));
        lemma_saved_doc_loads_back(key@, doc@, book@);
        if encode_spec(book@).len() <= 0xFFFFFFFF {
            assert(stored_doc_at(key@, doc@, book@, sb.nonce@, sb.ciphertext@));
        }
    }
    Ok(doc)
}

/// The record an add writes.
pub open spec fn added_entry(username: Seq<char>, password: Seq<char>, notes: Seq<char>) -> EntryV {
    EntryV { username, account: AccountV { password, notes } }
}

/// Loads the store, inserts a new record, and returns the new document
/// to persist; fails with `AlreadyExists` exactly when the username is
/// taken, and then no document is produced. On a stored state without
/// the username, success is owed whenever the grown payload is within
/// the cipher's machine limit.
pub fn add_account(key: &[u8; 32], file: Option<&[u8]>, username: &str, password: &str, notes: &str) -> (r:
    Result<Vec<u8>, StoreError>)
    ensures
        r matches Ok(doc) ==> exists|es: Seq<EntryV>|
            #![auto]
            prior_entries(key@, file_view(file), es) && !has_name(es, username@) && sealed_doc_for(
                key@,
                doc@,
                es.push(added_entry(username@, password@, notes@)),
            ) && doc_loads_to(key@, doc@, es.push(added_entry(username@, password@, notes@))),
        r == Err::<Vec<u8>, StoreError>(StoreError::AlreadyExists) ==> exists|es: Seq<EntryV>|
            #![auto]
            prior_entries(key@, file_view(file), es) && has_name(es, username@),
        r matches Err(e) ==> e != StoreError::NotFound && e != StoreError::IoError,
        forall|es: Seq<EntryV>| #![auto] stored_state(key@, file_view(file), es) && has_name(
            es,
            username@,
        ) ==> r == Err::<Vec<u8>, StoreError>(StoreError::AlreadyExists),
        forall|es: Seq<EntryV>|
            #![auto]
            stored_state(key@, file_view(file), es) && !has_name(es, username@) && encode_spec(
                es.push(added_entry(username@, password@, notes@)),
            ).len() <= 0xFFFFFFFF ==> r is Ok,
        forall|es: Seq<EntryV>|
            #![auto]
            stored_state(key@, file_view(file), es) && !has_name(es, username@) && encode_spec(
                es.push(added_entry(username@, password@, notes@)),
            ).len() <= 0xFFFFFFFF ==> (r matches Ok(doc) ==> stored_doc(
                key@,
                doc@,
                es.push(added_entry(username@, password@, notes@)),
            )),
{
    let mut book = match load_accounts(key, file) {
        Ok(b) => b,
        Err(e) => return Err(e),
    };
    let ghost prior = book@;
    match book.add(username, password, notes) {
        Ok(()) => {
            proof {
                lemma_map_of_contains(prior, username@);
            }
            match save_accounts(key, &book) {
                Ok(doc) => {
                    proof {
                        assert(prior_entries(key@, file_view(file), prior) && !has_name(
                            prior,
                            username@,
                        ) && sealed_doc_for(key@, doc@, book@) && doc_loads_to(key@, doc@, book@));
                        assert forall|es: Seq<EntryV>|
                            stored_state(key@, file_view(file), es) && !has_name(es, username@)
                                && encode_spec(
                                es.push(added_entry(username@, password@, notes@)),
                            ).len() <= 0xFFFFFFFF implies stored_doc(
                            key@,
                            doc@,
                            es.push(added_entry(username@, password@, notes@)),
                        ) by {
                            assert(prior == es);
                            assert(book@ == es.push(added_entry(username@, password@, notes@)));
                        }
                    }
                    Ok(doc)
                }
                Err(e) => {
                    proof {
                        assert forall|es: Seq<EntryV>|
                            stored_state(key@, file_view(file), es) && !has_name(es, username@)
                                && encode_spec(
                                es.push(added_entry(username@, password@, notes@)),
                            ).len() <= 0xFFFFFFFF implies false by {
                            assert(prior == es);
                            assert(book@ == es.push(added_entry(username@, password@, notes@)));
                        }
                    }
                    Err(e)
                }
            }
        }
        Err(e) => {
            proof {
                lemma_map_of_contains(prior, username@);
            }
            Err(e)
        }
    }
}

/// Loads the store, removes a record, and returns the new document to
/// persist; fails with `NotFound` exactly when the username is absent,
/// and then no document is produced. On a stored state holding the
/// username, success is owed whenever the shrunk payload is within the
/// cipher's machine limit.
pub fn delete_account(key: &[u8; 32], file: Option<&[u8]>, username: &str) -> (r: Result<
    Vec<u8>,
    StoreError,
>)
    ensures
        r matches Ok(doc) ==> exists|es: Seq<EntryV>, i: int|
            #![auto]
            prior_entries(key@, file_view(file), es) && 0 <= i < es.len() && es[i].username
                == username@ && sealed_doc_for(key@, doc@, es.remove(i)) && doc_loads_to(
                key@,
                doc@,
                es.remove(i),
            ),
        r == Err::<Vec<u8>, StoreError>(StoreError::NotFound) ==> exists|es: Seq<EntryV>|
            #![auto]
            prior_entries(key@, file_view(file), es) && !has_name(es, username@),
        r matches Err(e) ==> e != StoreError::AlreadyExists && e != StoreError::IoError,
        forall|es: Seq<EntryV>| #![auto] stored_state(key@, file_view(file), es) && !has_name(
            es,
            username@,
        ) ==> r == Err::<Vec<u8>, StoreError>(StoreError::NotFound),
        forall|es: Seq<EntryV>, i: int|
            #![auto]
            stored_state(key@, file_view(file), es) && 0 <= i < es.len() && es[i].username
                == username@ && encode_spec(es.remove(i)).len() <= 0xFFFFFFFF ==> r is Ok,
        forall|es: Seq<EntryV>, i: int|
            #![auto]
            stored_state(key@, file_view(file), es) && 0 <= i < es.len() && es[i].username
                == username@ && encode_spec(es.remove(i)).len() <= 0xFFFFFFFF ==> (
            r matches Ok(doc) ==> stored_doc(key@, doc@, es.remove(i))),
{
    let mut book = match load_accounts(key, file) {
        Ok(b) => b,
        Err(e) => return Err(e),
    };
    let ghost prior = book@;
    match book.delete(username) {
        Ok(()) => {
            proof {
                lemma_map_of_contains(prior, username@);
            }
            let ghost di = choose|di: int|
                0 <= di < prior.len() && prior[di].username == username@ && book@ == prior.remove(
                    di,
                );
            match save_accounts(key, &book) {
                Ok(doc) => {
                    proof {
                        assert(prior_entries(key@, file_view(file), prior) && 0 <= di
                            < prior.len() && prior[di].username == username@ && sealed_doc_for(
                            key@,
                            doc@,
                            prior.remove(di),
                        ) && doc_loads_to(key@, doc@, prior.remove(di)));
                        assert forall|es: Seq<EntryV>, i: int|
                            stored_state(key@, file_view(file), es) && 0 <= i < es.len()
                                && es[i].username == username@ && encode_spec(es.remove(i)).len()
                                <= 0xFFFFFFFF implies stored_doc(key@, doc@, es.remove(i)) by {
                            assert(prior == es);
                            if i != di {
                                assert(es[i].username == es[di].username);
                                assert(false);
                            }
                            assert(book@ == es.remove(i));
                        }
                    }
                    Ok(doc)
                }
                Err(e) => {
                    proof {
                        assert forall|es: Seq<EntryV>, i: int|
                            stored_state(key@, file_view(file), es) && 0 <= i < es.len()
                                && es[i].username == username@ && encode_spec(es.remove(i)).len()
                                <= 0xFFFFFFFF implies false by {
                            assert(prior == es);
                            if i != di {
                                assert(es[i].username == es[di].username);
                                assert(false);
                            }
                            assert(book@ == es.remove(i));
                        }
                    }
                    Err(e)
                }
            }
        }
        Err(e) => {
            proof {
                lemma_map_of_contains(prior, username@);
            }
            Err(e)
        }
    }
}

/// The record an update leaves under the username: each provided field
/// overwritten, each omitted one kept.
pub open spec fn updated_entry(
    old_entry: EntryV,
    username: Seq<char>,
    password: Option<&str>,
    notes: Option<&str>,
) -> EntryV {
    EntryV {
        username,
        account: AccountV {
            password: match password {
                Some(p) => p@,
                None => old_entry.account.password,
            },
            notes: match notes {
                Some(n) => n@,
                None => old_entry.account.notes,
            },
        },
    }
}

/// Loads the store, overwrites only the provided fields of a record, and
/// returns the new document to persist; fails with `NotFound` exactly
/// when the username is absent, and then no document is produced. On a
/// stored state holding the username, success is owed whenever the new
/// payload is within the cipher's machine limit.
pub fn update_account(
    key: &[u8; 32],
    file: Option<&[u8]>,
    username: &str,
    password: Option<&str>,
    notes: Option<&str>,
) -> (r: Result<Vec<u8>, StoreError>)
    ensures
        r matches Ok(doc) ==> exists|es: Seq<EntryV>, es2: Seq<EntryV>|
            #![auto]
            prior_entries(key@, file_view(file), es) && has_name(es, username@) && unique_names(es2)
                && map_of(es2) == map_of(es).insert(
                username@,
                AccountV {
                    password: match password {
                        Some(p) => p@,
                        None => map_of(es)[username@].password,
                    },
                    notes: match notes {
                        Some(n) => n@,
                        None => map_of(es)[username@].notes,
                    },
                },
            ) && sealed_doc_for(key@, doc@, es2) && doc_loads_to(key@, doc@, es2),
        r == Err::<Vec<u8>, StoreError>(StoreError::NotFound) ==> exists|es: Seq<EntryV>|
            #![auto]
            prior_entries(key@, file_view(file), es) && !has_name(es, username@),
        r matches Err(e) ==> e != StoreError::AlreadyExists && e != StoreError::IoError,
        forall|es: Seq<EntryV>| #![auto] stored_state(key@, file_view(file), es) && !has_name(
            es,
            username@,
        ) ==> r == Err::<Vec<u8>, StoreError>(StoreError::NotFound),
        forall|es: Seq<EntryV>, i: int|
            #![auto]
            stored_state(key@, file_view(file), es) && 0 <= i < es.len() && es[i].username
                == username@ && encode_spec(
                es.remove(i).push(updated_entry(es[i], username@, password, notes)),
            ).len() <= 0xFFFFFFFF ==> r is Ok,
        forall|es: Seq<EntryV>, i: int|
            #![auto]
            stored_state(key@, file_view(file), es) && 0 <= i < es.len() && es[i].username
                == username@ && encode_spec(
                es.remove(i).push(updated_entry(es[i], username@, password, notes)),
            ).len() <= 0xFFFFFFFF ==> (r matches Ok(doc) ==> stored_doc(
                key@,
                doc@,
                es.remove(i).push(updated_entry(es[i], username@, password, notes)),
            )),
{
    let mut book = match load_accounts(key, file) {
        Ok(b) => b,
        Err(e) => return Err(e),
    };
    let ghost prior = book@;
    match book.update(username, password, notes) {
        Ok(()) => {
            proof {
                lemma_map_of_contains(prior, username@);
            }
            let ghost di = choose|di: int|
                0 <= di < prior.len() && prior[di].username == username@ && book@ == prior.remove(
                    di,
                ).push(updated_entry(prior[di], username@, password, notes));
            match save_accounts(key, &book) {
                Ok(doc) => {
                    proof {
                        assert(prior_entries(key@, file_view(file), prior) && has_name(
                            prior,
                            username@,
                        ) && unique_names(book@) && sealed_doc_for(key@, doc@, book@)
                            && doc_loads_to(key@, doc@, book@));
                        assert forall|es: Seq<EntryV>, i: int|
                            stored_state(key@, file_view(file), es) && 0 <= i < es.len()
                                && es[i].username == username@ && encode_spec(
                                es.remove(i).push(updated_entry(es[i], username@, password, notes)),
                            ).len() <= 0xFFFFFFFF implies stored_doc(
                            key@,
                            doc@,
                            es.remove(i).push(updated_entry(es[i], username@, password, notes)),
                        ) by {
                            assert(prior == es);
                            if i != di {
                                assert(es[i].username == es[di].username);
                                assert(false);
                            }
                            assert(book@ == es.remove(i).push(updated_entry(
                                es[i],
                                username@,
                                password,
                                notes,
                            )));
                        }
                    }
                    Ok(doc)
                }
                Err(e) => {
                    proof {
                        assert forall|es: Seq<EntryV>, i: int|
                            stored_state(key@, file_view(file), es) && 0 <= i < es.len()
                                && es[i].username == username@ && encode_spec(
                                es.remove(i).push(updated_entry(es[i], username@, password, notes)),
                            ).len() <= 0xFFFFFFFF implies false by {
                            assert(prior == es);
                            if i != di {
                                assert(es[i].username == es[di].username);
                                assert(false);
                            }
                            assert(book@ == es.remove(i).push(updated_entry(
                                es[i],
                                username@,
                                password,
                                notes,
                            )));
                        }
                    }
                    Err(e)
                }
            }
        }
        Err(e) => {
            proof {
                lemma_map_of_contains(prior, username@);
            }
            Err(e)
        }
    }
}

/// Loads the store and returns the record under the given username;
/// fails with `NotFound` exactly when the loaded store lacks it.
/// Read-only: no document is produced and nothing is persisted.
pub fn get_account(key: &[u8; 32], file: Option<&[u8]>, username: &str) -> (r: Result<
    Account,
    StoreError,
>)
    ensures
        r matches Ok(a) ==> exists|es: Seq<EntryV>|
            #![auto]
            prior_entries(key@, file_view(file), es) && map_of(es).contains_key(username@) && a@
                == map_of(es)[username@],
        r == Err::<Account, StoreError>(StoreError::NotFound) ==> exists|es: Seq<EntryV>|
            #![auto]
            prior_entries(key@, file_view(file), es) && !map_of(es).contains_key(username@),
        r matches Err(e) ==> e != StoreError::AlreadyExists && e != StoreError::IoError,
        forall|es: Seq<EntryV>| #![auto] stored_state(key@, file_view(file), es) && !has_name(
            es,
            username@,
        ) ==> r == Err::<Account, StoreError>(StoreError::NotFound),
        forall|es: Seq<EntryV>, i: int|
            #![auto]
            stored_state(key@, file_view(file), es) && 0 <= i < es.len() && es[i].username
                == username@ ==> (r matches Ok(a) && a@ == es[i].account),
{
    let book = match load_accounts(key, file) {
        Ok(b) => b,
        Err(e) => return Err(e),
    };
    match book.get(username) {
        Some(a) => {
            let out = clone_account(a);
            proof {
                assert(prior_entries(key@, file_view(file), book@) && map_of(book@).contains_key(
                    username@,
                ) && out@ == map_of(book@)[username@]);
                assert forall|es: Seq<EntryV>, i: int|
                    stored_state(key@, file_view(file), es) && 0 <= i < es.len()
                        && es[i].username == username@ implies out@ == es[i].account by {
                    assert(book@ == es);
                    lemma_map_of_index(es, i);
                }
                assert forall|es: Seq<EntryV>|
                    stored_state(key@, file_view(file), es) && !has_name(es, username@)
                        implies false by {
                    assert(book@ == es);
                    lemma_map_of_contains(es, username@);
                }
            }
            Ok(out)
        }
        None => {
            proof {
                lemma_map_of_contains(book@, username@);
                assert forall|es: Seq<EntryV>, i: int|
                    stored_state(key@, file_view(file), es) && 0 <= i < es.len()
                        && es[i].username == username@ implies false by {
                    assert(book@ == es);
                    lemma_map_of_index(es, i);
                }
            }
            Err(StoreError::NotFound)
        }
    }
}

/// Loads the store and returns every entry, in storage order; on any
/// stored state it is owed success and returns exactly those entries.
/// Read-only: no document is produced and nothing is persisted.
pub fn list_accounts(key: &[u8; 32], file: Option<&[u8]>) -> (r: Result<Vec<Entry>, StoreError>)
    ensures
        r matches Ok(v) ==> exists|es: Seq<EntryV>|
            #![auto]
            prior_entries(key@, file_view(file), es) && v@.len() == es.len() && (forall|i: int|
                0 <= i < es.len() ==> v@[i]@ == es[i]),
        file is None ==> (r matches Ok(v) && v@.len() == 0),
        r matches Err(e) ==> e == StoreError::FormatError || e == StoreError::AuthenticationError,
        forall|es: Seq<EntryV>| #![auto] stored_state(key@, file_view(file), es) ==> (
        r matches Ok(v) && v@.len() == es.len() && (forall|i: int|
            0 <= i < es.len() ==> v@[i]@ == es[i])),
{
    let book = match load_accounts(key, file) {
        Ok(b) => b,
        Err(e) => return Err(e),
    };
    let n = book.len();
    let mut out: Vec<Entry> = Vec::new();
    for i in 0..n
        invariant
            n == book@.len(),
            out@.len() == i,
            forall|j: int| 0 <= j < i ==> out@[j]@ == book@[j],
    {
        let e = clone_entry(book.entry_at(i));
        out.push(e);
    }
    proof {
        assert(prior_entries(key@, file_view(file), book@) && out@.len() == book@.len() && (
        forall|i: int| 0 <= i < book@.len() ==> out@[i]@ == book@[i]));
    }
    Ok(out)
}

} // verus!

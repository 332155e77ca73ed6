use passman::accounts::AccountBook;
use passman::codec::{decode_accounts, encode_accounts};
use passman::crypto::derive_key;
use passman::errors::StoreError;
use passman::store::{
    add_account, delete_account, get_account, list_accounts, load_accounts, save_accounts,
    update_account,
};

fn filled_book() -> AccountBook {
    let mut book = AccountBook::new();
    book.add("alice", "p1", "site.com").unwrap();
    book.add("bob", "hunter2", "other.org").unwrap();
    book.add("素数", "pässwörd", "ノート 📝").unwrap();
    book.add("", "empty name is a name", "").unwrap();
    book
}

#[test]
fn codec_round_trip_empty() {
    let book = AccountBook::new();
    let bytes = encode_accounts(&book);
    let back = decode_accounts(&bytes).unwrap();
    assert_eq!(back.len(), 0);
}

#[test]
fn codec_round_trip_nonempty() {
    let book = filled_book();
    let bytes = encode_accounts(&book);
    let back = decode_accounts(&bytes).unwrap();
    assert_eq!(back.len(), 4);
    let a = back.get("素数").unwrap();
    assert_eq!(a.password, "pässwörd");
    assert_eq!(a.notes, "ノート 📝");
    let b = back.get("").unwrap();
    assert_eq!(b.password, "empty name is a name");
    assert_eq!(b.notes, "");
}

#[test]
fn codec_rejects_truncated_payload() {
    let book = filled_book();
    let bytes = encode_accounts(&book);
    for cut in [0usize, 1, 7, bytes.len() - 1] {
        let r = decode_accounts(&bytes[..cut]);
        assert_eq!(r.unwrap_err(), StoreError::FormatError);
    }
}

#[test]
fn codec_rejects_trailing_garbage() {
    let book = filled_book();
    let mut bytes = encode_accounts(&book);
    bytes.push(0);
    assert_eq!(decode_accounts(&bytes).unwrap_err(), StoreError::FormatError);
}

#[test]
fn codec_rejects_duplicate_usernames() {
    let mut one = AccountBook::new();
    one.add("dup", "pw", "n").unwrap();
    let single = encode_accounts(&one);
    // Payload of two identical entries: count = 2, then the one entry twice.
    let entry = &single[8..];
    let mut forged: Vec<u8> = Vec::new();
    forged.extend_from_slice(&2u64.to_le_bytes());
    forged.extend_from_slice(entry);
    forged.extend_from_slice(entry);
    assert_eq!(decode_accounts(&forged).unwrap_err(), StoreError::FormatError);
}

#[test]
fn codec_rejects_invalid_utf8() {
    // count = 1, first string of length 1 holding the invalid byte 0xff.
    let mut forged: Vec<u8> = Vec::new();
    forged.extend_from_slice(&1u64.to_le_bytes());
    forged.extend_from_slice(&1u64.to_le_bytes());
    forged.push(0xff);
    forged.extend_from_slice(&0u64.to_le_bytes());
    forged.extend_from_slice(&0u64.to_le_bytes());
    assert_eq!(decode_accounts(&forged).unwrap_err(), StoreError::FormatError);
}

#[test]
fn fresh_environment_lists_empty() {
    let key = derive_key("master");
    let listed = list_accounts(&key, None).unwrap();
    assert!(listed.is_empty());
    let book = load_accounts(&key, None).unwrap();
    assert_eq!(book.len(), 0);
    assert_eq!(get_account(&key, None, "alice").unwrap_err(), StoreError::NotFound);
}

#[test]
fn add_then_get_returns_record() {
    let key = derive_key("master");
    let doc = add_account(&key, None, "alice", "p1", "site.com").unwrap();
    let a = get_account(&key, Some(&doc), "alice").unwrap();
    assert_eq!(a.password, "p1");
    assert_eq!(a.notes, "site.com");
}

#[test]
fn add_duplicate_fails_already_exists() {
    let key = derive_key("master");
    let doc = add_account(&key, None, "a", "p", "n").unwrap();
    let r = add_account(&key, Some(&doc), "a", "other", "other");
    assert_eq!(r.unwrap_err(), StoreError::AlreadyExists);
    // The failed call produced no document: the stored one still holds
    // the original record.
    let a = get_account(&key, Some(&doc), "a").unwrap();
    assert_eq!(a.password, "p");
}

#[test]
fn delete_then_get_fails_not_found() {
    let key = derive_key("master");
    let doc = add_account(&key, None, "a", "p", "n").unwrap();
    let doc2 = delete_account(&key, Some(&doc), "a").unwrap();
    assert_eq!(get_account(&key, Some(&doc2), "a").unwrap_err(), StoreError::NotFound);
    assert_eq!(delete_account(&key, Some(&doc2), "a").unwrap_err(), StoreError::NotFound);
}

#[test]
fn update_missing_fails_and_leaves_store_unchanged() {
    let key = derive_key("master");
    let doc = add_account(&key, None, "a", "p", "n").unwrap();
    let before = doc.clone();
    let r = update_account(&key, Some(&doc), "missing", Some("x"), None);
    assert_eq!(r.unwrap_err(), StoreError::NotFound);
    // No new document was produced and the old one is byte-identical.
    assert_eq!(doc, before);
    let a = get_account(&key, Some(&doc), "a").unwrap();
    assert_eq!(a.password, "p");
    assert_eq!(a.notes, "n");
}

#[test]
fn update_password_only_preserves_notes() {
    let key = derive_key("master");
    let doc = add_account(&key, None, "alice", "p1", "n").unwrap();
    let doc2 = update_account(&key, Some(&doc), "alice", Some("p2"), None).unwrap();
    let a = get_account(&key, Some(&doc2), "alice").unwrap();
    assert_eq!(a.password, "p2");
    assert_eq!(a.notes, "n");
}

#[test]
fn update_notes_only_preserves_password() {
    let key = derive_key("master");
    let doc = add_account(&key, None, "alice", "p1", "old note").unwrap();
    let doc2 = update_account(&key, Some(&doc), "alice", None, Some("new note")).unwrap();
    let a = get_account(&key, Some(&doc2), "alice").unwrap();
    assert_eq!(a.password, "p1");
    assert_eq!(a.notes, "new note");
}

#[test]
fn save_load_round_trip_many_entries() {
    let key = derive_key("master");
    let book = filled_book();
    let doc = save_accounts(&key, &book).unwrap();
    let back = load_accounts(&key, Some(&doc)).unwrap();
    assert_eq!(back.len(), 4);
    assert_eq!(back.get("bob").unwrap().password, "hunter2");
    assert_eq!(back.get("素数").unwrap().notes, "ノート 📝");
}

#[test]
fn document_shape_is_the_json_envelope() {
    let key = derive_key("master");
    let doc = add_account(&key, None, "a", "p", "n").unwrap();
    let text = String::from_utf8(doc.clone()).unwrap();
    assert!(text.starts_with("{\"iv\":\""));
    assert!(text.contains("\",\"encrypted_data\":\""));
    assert!(text.ends_with("\"}"));
}

#[test]
fn wrong_passphrase_is_authentication_error() {
    let k1 = derive_key("right");
    let k2 = derive_key("wrong");
    let doc = add_account(&k1, None, "a", "p", "n").unwrap();
    assert_eq!(load_accounts(&k2, Some(&doc)).unwrap_err(), StoreError::AuthenticationError);
    assert_eq!(get_account(&k2, Some(&doc), "a").unwrap_err(), StoreError::AuthenticationError);
}

#[test]
fn malformed_documents_are_format_errors() {
    let key = derive_key("master");
    for bad in [
        &b""[..],
        &b"{}"[..],
        &b"not json at all"[..],
        &b"{\"iv\":\"AAAA\"}"[..],
        &b"{\"iv\":\"!!!!\",\"encrypted_data\":\"AAAA\"}"[..],
        &b"{\"iv\":\"AAAA\",\"encrypted_data\":\"AAAA\"} "[..],
        // The document is canonical: no reordered fields, no whitespace.
        &b"{\"encrypted_data\":\"AAAA\",\"iv\":\"AAAA\"}"[..],
        &b"{\"iv\": \"AAAA\",\"encrypted_data\":\"AAAA\"}"[..],
    ] {
        assert_eq!(load_accounts(&key, Some(bad)).unwrap_err(), StoreError::FormatError);
    }
}

#[test]
fn wrong_nonce_length_is_format_error() {
    let key = derive_key("master");
    // "AAAA" decodes to three bytes, not the twelve a nonce needs.
    let doc = b"{\"iv\":\"AAAA\",\"encrypted_data\":\"AAAA\"}";
    assert_eq!(load_accounts(&key, Some(doc)).unwrap_err(), StoreError::FormatError);
}

#[test]
fn tampered_document_field_fails_authentication() {
    let key = derive_key("master");
    let doc = add_account(&key, None, "a", "p", "n").unwrap();
    let text = String::from_utf8(doc).unwrap();
    // Swap one base64 character of the ciphertext field for another.
    let idx = text.rfind(':').unwrap() + 2;
    let mut bytes = text.into_bytes();
    bytes[idx] = if bytes[idx] == b'A' { b'B' } else { b'A' };
    let r = load_accounts(&key, Some(&bytes));
    assert!(matches!(
        r,
        Err(StoreError::AuthenticationError) | Err(StoreError::FormatError)
    ));
}

#[test]
fn in_memory_crud_invariants() {
    let mut book = AccountBook::new();
    assert_eq!(book.add("a", "p", "n"), Ok(()));
    assert_eq!(book.add("a", "q", "m"), Err(StoreError::AlreadyExists));
    assert_eq!(book.update("missing", Some("x"), None), Err(StoreError::NotFound));
    assert_eq!(book.delete("missing"), Err(StoreError::NotFound));
    assert_eq!(book.delete("a"), Ok(()));
    assert!(book.get("a").is_none());
    assert_eq!(book.len(), 0);
}

#[test]
fn list_returns_all_entries() {
    let key = derive_key("master");
    let book = filled_book();
    let doc = save_accounts(&key, &book).unwrap();
    let listed = list_accounts(&key, Some(&doc)).unwrap();
    assert_eq!(listed.len(), 4);
    let names: Vec<&str> = listed.iter().map(|e| e.username.as_str()).collect();
    assert!(names.contains(&"alice"));
    assert!(names.contains(&"bob"));
    assert!(names.contains(&"素数"));
    assert!(names.contains(&""));
}

#[test]
fn parse_envelope_splits_what_the_writer_builds() {
    let key = derive_key("master");
    let doc = add_account(&key, None, "a", "p", "n").unwrap();
    let (iv_text, data_text) = passman::envelope::parse_envelope(&doc).unwrap();
    let mut rebuilt: Vec<u8> = Vec::new();
    rebuilt.extend_from_slice(b"{\"iv\":\"");
    rebuilt.extend_from_slice(&iv_text);
    rebuilt.extend_from_slice(b"\",\"encrypted_data\":\"");
    rebuilt.extend_from_slice(&data_text);
    rebuilt.extend_from_slice(b"\"}");
    assert_eq!(rebuilt, doc);
    // A 12-byte nonce encodes to 16 base64 characters.
    assert_eq!(iv_text.len(), 16);
}

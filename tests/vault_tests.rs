use zoo::crypt::{gen_salt, Crypt, CryptError};
use zoo::session::{handle_line, parse_command, Command};
use zoo::vault::{obtain_salt, salt_from_text, salt_to_text, InitError, Vault};

const SALT: [u8; 16] = [7, 1, 2, 3, 4, 5, 6, 7, 8, 9, 10, 11, 12, 13, 14, 15];

fn empty_vault(password: &str) -> Vault {
    Vault::new(password.to_string(), SALT, Vec::new()).unwrap()
}

fn answer(vault: &mut Vault, line: &str) -> Option<String> {
    handle_line(vault, line).answer
}

#[test]
fn scenario_fresh_directory() {
    let mut v = empty_vault("master");
    assert_eq!(answer(&mut v, "put user admin"), None);
    assert_eq!(answer(&mut v, "put pass s3cret"), None);
    assert_eq!(answer(&mut v, "get user"), Some("val admin\n".to_string()));
    assert_eq!(answer(&mut v, "get missing"), Some("nil\n".to_string()));
    let listing = answer(&mut v, "lst").unwrap();
    let words: Vec<&str> = listing.split_whitespace().collect();
    assert!(words.contains(&"user"));
    assert!(words.contains(&"pass"));
    assert_eq!(answer(&mut v, "del user"), None);
    assert_eq!(answer(&mut v, "get user"), Some("nil\n".to_string()));
}

#[test]
fn round_trip_after_restart() {
    let mut v = empty_vault("master");
    v.put("alpha", "one").unwrap();
    let blob = v.put("beta", "two:with:colons").unwrap();
    let w = Vault::new("master".to_string(), SALT, blob).unwrap();
    assert_eq!(w.get("alpha"), Some("one"));
    assert_eq!(w.get("beta"), Some("two:with:colons"));
    assert_eq!(w.get("gamma"), None);
}

#[test]
fn blob_hides_plaintext() {
    let mut v = empty_vault("master");
    let blob = v.put("usernamekey", "supersecretvalue").unwrap();
    let needle = b"supersecretvalue";
    assert!(!blob.windows(needle.len()).any(|w| w == needle));
    let needle = b"usernamekey";
    assert!(!blob.windows(needle.len()).any(|w| w == needle));
    assert_eq!(blob.len(), 12 + "usernamekey:supersecretvalue\n".len() + 16);
}

#[test]
fn flipped_byte_fails_to_open() {
    let mut v = empty_vault("master");
    let blob = v.put("a", "1").unwrap();
    for i in 0..blob.len() {
        let mut bad = blob.clone();
        bad[i] ^= 0x01;
        let r = Vault::new("master".to_string(), SALT, bad);
        assert!(matches!(r, Err(InitError::BadPassword)));
    }
}

#[test]
fn wrong_password_fails() {
    let mut v = empty_vault("master");
    let blob = v.put("a", "1").unwrap();
    let r = Vault::new("other".to_string(), SALT, blob.clone());
    assert!(matches!(r, Err(InitError::BadPassword)));
    let mut salt = SALT;
    salt[0] = 99;
    let r = Vault::new("master".to_string(), salt, blob);
    assert!(matches!(r, Err(InitError::BadPassword)));
}

#[test]
fn short_blob_fails() {
    let r = Vault::new("master".to_string(), SALT, vec![1, 2, 3]);
    assert!(matches!(r, Err(InitError::BadPassword)));
}

#[test]
fn non_utf8_plaintext_is_malformed() {
    let crypt = Crypt::new("master".to_string(), SALT);
    let blob = crypt.encrypt(vec![0xff, b':', b'a', b'\n']).unwrap();
    let r = Vault::new("master".to_string(), SALT, blob);
    assert!(matches!(r, Err(InitError::Malformed)));
}

#[test]
fn records_without_colon_are_skipped() {
    let crypt = Crypt::new("pw".to_string(), SALT);
    let blob = crypt.encrypt(b"noise\nk:v:w\n\nlast:x".to_vec()).unwrap();
    let v = Vault::new("pw".to_string(), SALT, blob).unwrap();
    assert_eq!(v.get("k"), Some("v:w"));
    assert_eq!(v.get("last"), Some("x"));
    assert_eq!(v.get("noise"), None);
    assert_eq!(v.lst(), "k last");
}

#[test]
fn delete_absent_is_noop() {
    let mut v = empty_vault("master");
    v.put("a", "1").unwrap();
    assert!(v.del("zzz").is_none());
    assert!(v.del("zzz").is_none());
    assert_eq!(v.get("a"), Some("1"));
    assert!(v.del("a").is_some());
    assert!(v.del("a").is_none());
}

#[test]
fn overwrite_keeps_last_value() {
    let mut v = empty_vault("master");
    v.put("k", "v1").unwrap();
    v.put("k", "v2").unwrap();
    assert_eq!(v.get("k"), Some("v2"));
    assert_eq!(v.lst(), "k");
}

#[test]
fn either_order_gives_one_value() {
    let mut v = empty_vault("master");
    v.put("a", "1").unwrap();
    v.put("a", "2").unwrap();
    assert_eq!(v.get("a"), Some("2"));
    v.put("a", "1").unwrap();
    assert_eq!(v.get("a"), Some("1"));
}

#[test]
fn listing_has_exactly_the_keys() {
    let mut v = empty_vault("master");
    assert_eq!(v.lst(), "");
    v.put("a", "1").unwrap();
    v.put("b", "2").unwrap();
    let mut words: Vec<String> = v.lst().split(' ').map(String::from).collect();
    words.sort();
    assert_eq!(words, vec!["a".to_string(), "b".to_string()]);
}

#[test]
fn protocol_answers() {
    let mut v = empty_vault("pw");
    assert_eq!(answer(&mut v, "?"), Some("put get del off lst ?\n".to_string()));
    assert_eq!(answer(&mut v, "lst"), Some("\n".to_string()));
    assert_eq!(answer(&mut v, ""), None);
    assert_eq!(answer(&mut v, "bogus a b"), None);
    assert_eq!(answer(&mut v, "put onlykey"), None);
    assert_eq!(answer(&mut v, "get"), None);
    assert_eq!(answer(&mut v, "get onlykey"), Some("nil\n".to_string()));
    assert_eq!(answer(&mut v, "  put   k   v  extra "), None);
    assert_eq!(answer(&mut v, "get k"), Some("val v\n".to_string()));
    let out = handle_line(&mut v, "off");
    assert!(out.shutdown);
    assert!(out.answer.is_none());
}

#[test]
fn protocol_persists_mutations_only() {
    let mut v = empty_vault("pw");
    let out = handle_line(&mut v, "put k v");
    let blob = out.persist.unwrap().unwrap();
    assert!(handle_line(&mut v, "get k").persist.is_none());
    assert!(handle_line(&mut v, "del nothing").persist.is_none());
    assert!(handle_line(&mut v, "del k").persist.is_some());
    let w = Vault::new("pw".to_string(), SALT, blob).unwrap();
    assert_eq!(w.get("k"), Some("v"));
}

#[test]
fn parse_commands() {
    assert_eq!(parse_command("put a b"), Command::Put("a".to_string(), "b".to_string()));
    assert_eq!(parse_command("get a"), Command::Get("a".to_string()));
    assert_eq!(parse_command("del a"), Command::Del("a".to_string()));
    assert_eq!(parse_command("lst"), Command::Lst);
    assert_eq!(parse_command("?"), Command::Help);
    assert_eq!(parse_command("off"), Command::Off);
    assert_eq!(parse_command("   "), Command::Ignore);
    assert_eq!(parse_command("del"), Command::Ignore);
    assert_eq!(parse_command("PUT a b"), Command::Ignore);
}

#[test]
fn salt_text_round_trip() {
    let text = salt_to_text(&SALT);
    assert_eq!(text.len(), 24);
    assert_eq!(text, "BwECAwQFBgcICQoLDA0ODw==");
    assert_eq!(salt_from_text(&text), Some(SALT));
}

#[test]
fn malformed_salt_text_is_rejected() {
    assert_eq!(salt_from_text(""), None);
    assert_eq!(salt_from_text("not base64 at all!!!!!!!"), None);
    assert_eq!(salt_from_text("AAAAAAAAAAAAAAAAAAAAAAAA"), None);
    assert_eq!(salt_from_text("AAAA"), None);
}

#[test]
fn obtain_salt_keeps_or_regenerates() {
    let text = salt_to_text(&SALT);
    assert_eq!(obtain_salt(&text), Some((SALT, None)));
    let (salt, written) = obtain_salt("garbage").unwrap();
    assert_eq!(written, Some(salt_to_text(&salt)));
}

#[test]
fn fresh_salts_differ() {
    let a = gen_salt().unwrap();
    let b = gen_salt().unwrap();
    assert_ne!(a, b);
}

#[test]
fn encrypt_decrypt() {
    let crypt = Crypt::new("pw".to_string(), SALT);
    let blob = crypt.encrypt(b"hello".to_vec()).unwrap();
    assert_eq!(blob.len(), 12 + 5 + 16);
    assert_eq!(crypt.decrypt(blob.clone()), Ok(b"hello".to_vec()));
    let other = Crypt::new("pw2".to_string(), SALT);
    assert_eq!(other.decrypt(blob), Err(CryptError::Decrypt));
    assert_eq!(crypt.decrypt(vec![0; 11]), Err(CryptError::Decrypt));
    assert_eq!(crypt.decrypt(vec![0; 12]), Err(CryptError::Decrypt));
}

#[test]
fn encrypt_with_nonce_puts_nonce_first() {
    let crypt = Crypt::new("pw".to_string(), SALT);
    let nonce = [9u8; 12];
    let a = crypt.encrypt_with_nonce(b"abc".to_vec(), nonce).unwrap();
    let b = crypt.encrypt_with_nonce(b"abc".to_vec(), nonce).unwrap();
    assert_eq!(a, b);
    assert_eq!(&a[..12], &nonce[..]);
    assert_ne!(&a[12..15], b"abc");
    assert_eq!(crypt.decrypt(a), Ok(b"abc".to_vec()));
}

#[test]
fn fresh_nonces_differ() {
    let crypt = Crypt::new("pw".to_string(), SALT);
    let a = crypt.encrypt(b"same".to_vec()).unwrap();
    let b = crypt.encrypt(b"same".to_vec()).unwrap();
    assert_ne!(a, b);
}

#[test]
fn key_depends_on_password() {
    let a = Crypt::new("pw".to_string(), SALT);
    let b = Crypt::new("pw".to_string(), SALT);
    let blob = a.encrypt(b"x".to_vec()).unwrap();
    assert_eq!(b.decrypt(blob), Ok(b"x".to_vec()));
}

#[test]
fn non_utf8_outside_records_is_malformed() {
    let crypt = Crypt::new("master".to_string(), SALT);
    let blob = crypt.encrypt(vec![0xff, b'\n', b'k', b':', b'v', b'\n']).unwrap();
    let r = Vault::new("master".to_string(), SALT, blob);
    assert!(matches!(r, Err(InitError::Malformed)));
}

#[test]
fn salt_written_then_read_again() {
    let (salt, written) = obtain_salt("").unwrap();
    let text = written.unwrap();
    assert_eq!(obtain_salt(&text), Some((salt, None)));
}

#[test]
fn value_with_colon_survives_restart() {
    let mut v = empty_vault("pw");
    let blob = handle_line(&mut v, "put url http://a:b@c").persist.unwrap().unwrap();
    let w = Vault::new("pw".to_string(), SALT, blob).unwrap();
    assert_eq!(w.get("url"), Some("http://a:b@c"));
}

#[test]
fn unicode_whitespace_splits_words() {
    assert_eq!(parse_command("get\u{3000}user"), Command::Get("user".to_string()));
    assert_eq!(parse_command("\u{a0}\tlst\u{2028}"), Command::Lst);
    assert_eq!(parse_command("put\u{85}k\u{200a}v"), Command::Put("k".to_string(), "v".to_string()));
    assert_eq!(parse_command("get\u{200b}user"), Command::Ignore);
}

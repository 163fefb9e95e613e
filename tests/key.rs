use relay_server::key::{
    get_server_sk, is_placeholder, secret_key_half, stated_token_of, PUBLIC_KEY_BYTES,
    SECRET_KEY_BYTES, TOKEN_CHARS,
};

fn secret_key_bytes() -> Vec<u8> {
    (0..SECRET_KEY_BYTES as u32).map(|i| (i * 7 + 3) as u8).collect()
}

#[test]
fn empty_key_disables_authorization() {
    assert_eq!(get_server_sk(""), "");
}

#[test]
fn plain_key_is_kept_verbatim() {
    assert_eq!(get_server_sk("abc"), "abc");
    assert_eq!(get_server_sk("my-relay-token"), "my-relay-token");
}

#[test]
fn short_base64_key_is_kept_verbatim() {
    // "aGVsbG8=" decodes to five bytes, not a secret key.
    assert_eq!(get_server_sk("aGVsbG8="), "aGVsbG8=");
}

#[test]
fn secret_key_yields_encoded_second_half() {
    let sk = secret_key_bytes();
    let text = base64::encode(&sk);
    let token = get_server_sk(&text);
    assert_eq!(token, base64::encode(&sk[32..]));
    assert_ne!(token, text);
    assert_eq!(token.len(), TOKEN_CHARS);
    assert_eq!(get_server_sk(&token), token);
}

#[test]
fn stated_token_of_secret_key() {
    let sk = secret_key_bytes();
    let text = base64::encode(&sk);
    assert_eq!(stated_token_of(&text), base64::encode(&sk[32..]));
    assert_eq!(stated_token_of("-"), "-");
}

#[test]
fn sixty_three_byte_key_is_kept_verbatim() {
    let sk: Vec<u8> = (0..63u8).collect();
    let text = base64::encode(&sk);
    assert_eq!(get_server_sk(&text), text);
}

#[test]
fn placeholder_yields_fresh_public_key() {
    for p in ["-", "_"] {
        let a = get_server_sk(p);
        let b = get_server_sk(p);
        assert_eq!(base64::decode(&a).unwrap().len(), PUBLIC_KEY_BYTES);
        assert_eq!(base64::decode(&b).unwrap().len(), PUBLIC_KEY_BYTES);
        assert_ne!(a, b);
        assert_eq!(a.len(), TOKEN_CHARS);
        assert_eq!(get_server_sk(&a), a);
    }
}

#[test]
fn placeholder_recognition() {
    assert!(is_placeholder("-"));
    assert!(is_placeholder("_"));
    assert!(!is_placeholder(""));
    assert!(!is_placeholder("--"));
    assert!(!is_placeholder("a"));
}

#[test]
fn secret_key_half_of_bytes() {
    let sk = secret_key_bytes();
    assert_eq!(secret_key_half(&sk), Some(&sk[32..]));
    assert_eq!(secret_key_half(&sk[..63]), None);
    assert_eq!(secret_key_half(&[]), None);
}

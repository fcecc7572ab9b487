use zero2prod::startup::{cookie_key, socket_address, ApplicationBaseUrl, KEY_MATERIAL_LEN};

#[test]
fn socket_address_joins_host_and_port() {
    assert_eq!(socket_address("127.0.0.1", 8000), "127.0.0.1:8000");
    assert_eq!(socket_address("localhost", 0), "localhost:0");
    assert_eq!(socket_address("0.0.0.0", 65535), "0.0.0.0:65535");
    assert_eq!(socket_address("", 7), ":7");
    assert_eq!(socket_address("::1", 10), "::1:10");
    assert_eq!(socket_address("h", 1009), "h:1009");
}

#[test]
fn socket_address_writes_every_port_as_std_does() {
    for port in 0..=u16::MAX {
        assert_eq!(socket_address("h", port), format!("h:{}", port));
    }
}

#[test]
fn base_url_is_kept_as_given() {
    let base_url = ApplicationBaseUrl("https://news.example.com".to_string());
    assert_eq!(base_url.as_str(), "https://news.example.com");
    assert_eq!(base_url.0, "https://news.example.com");
}

#[test]
fn cookie_key_needs_sixty_four_bytes() {
    assert_eq!(KEY_MATERIAL_LEN, 64);
    assert!(cookie_key(&[]).is_none());
    assert!(cookie_key(&[7u8; 63]).is_none());
    assert!(cookie_key(&[7u8; 64]).is_some());
    assert!(cookie_key(&[7u8; 200]).is_some());
}

#[test]
fn cookie_key_is_made_of_the_first_bytes_of_the_secret() {
    let secret: Vec<u8> = (0..100u8).collect();
    let key = cookie_key(&secret).expect("a secret of 100 bytes makes a key");
    assert_eq!(key.master(), &secret[..64]);
    assert_eq!(key.signing(), &secret[..32]);
    assert_eq!(key.encryption(), &secret[32..64]);
}

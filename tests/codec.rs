use base64::Engine;
use swuc::codec::{decrypt_response, encode_payload, seal, CryptoError};
use swuc::decode::{response_text, DecodeError};
use swuc::request::{
    canonical_names, check_updates, encrypt_request, load_package_list, request_frame, request_plaintext,
    UserConfig, ConfigError,
};
use swuc::tick::{after_tick, NextStep};

fn b64(b: &[u8]) -> String {
    base64::engine::general_purpose::STANDARD.encode(b)
}

fn s(x: &str) -> String {
    x.to_string()
}

#[test]
fn payload_is_sorted_base64_joined() {
    let names = vec![s("rustlang"), s("nginx"), s("nginx")];
    assert_eq!(canonical_names(&names), vec![s("nginx"), s("rustlang")]);
    assert_eq!(request_plaintext(&names), "bmdpbng=|cnVzdGxhbmc=");
    assert_eq!(encode_payload(&vec![s("é")]), "w6k=");
    assert_eq!(encode_payload(&vec![]), "");
}

#[test]
fn package_list_trims_and_dedups() {
    let names = load_package_list("  zlib \n\nnginx\r\n\t\nnginx\ncurl");
    assert_eq!(names, vec![s("curl"), s("nginx"), s("zlib")]);
    assert!(load_package_list("\n \n").is_empty());
}

#[test]
fn encrypt_then_decrypt_round_trip() {
    let (sk, pk) = ecies::utils::generate_keypair();
    let public = b64(&pk.serialize());
    let secret = b64(&sk.serialize());
    for names in [vec![s("nginx"), s("rustlang")], vec![s("ü日本")], vec![]] {
        let ct = encrypt_request(&names, &public).unwrap();
        let back = decrypt_response(&b64(&ct), &secret).unwrap();
        assert_eq!(back, request_plaintext(&names).into_bytes());
    }
    for m in [vec![0xffu8, 0x00, 0xfe], vec![], b"plain".to_vec()] {
        let ct = seal(&m, &public).unwrap();
        assert_eq!(decrypt_response(&b64(&ct), &secret).unwrap(), m);
    }
}

#[test]
fn decrypt_failures() {
    let (sk, pk) = ecies::utils::generate_keypair();
    let (other, _) = ecies::utils::generate_keypair();
    let ct = encrypt_request(&vec![s("nginx")], &b64(&pk.serialize())).unwrap();
    assert_eq!(
        decrypt_response(&b64(&ct), &b64(&other.serialize())).err(),
        Some(CryptoError::Decryption)
    );
    let mut tampered = ct.clone();
    let last = tampered.len() - 1;
    tampered[last] ^= 1;
    assert_eq!(
        decrypt_response(&b64(&tampered), &b64(&sk.serialize())).err(),
        Some(CryptoError::Decryption)
    );
    assert_eq!(decrypt_response("not base64!", &b64(&sk.serialize())).err(), Some(CryptoError::ResponseEncoding));
    assert_eq!(decrypt_response(&b64(&ct), "%%").err(), Some(CryptoError::KeyEncoding));
    assert_eq!(response_text(vec![0xff, 0xfe]).err(), Some(DecodeError::NotUtf8));
    assert_eq!(response_text(vec![0x68, 0x69]).unwrap(), "hi");
}

#[test]
fn encrypt_key_errors() {
    assert_eq!(encrypt_request(&vec![s("a")], "%%").err(), Some(CryptoError::KeyEncoding));
    assert_eq!(encrypt_request(&vec![s("a")], &b64(&[1, 2, 3])).err(), Some(CryptoError::KeyFormat));
    let mut not_a_point = [0u8; 65];
    not_a_point[0] = 4;
    not_a_point[1] = 1;
    assert_eq!(encrypt_request(&vec![s("a")], &b64(&not_a_point)).err(), Some(CryptoError::KeyFormat));
    let (_, pk) = ecies::utils::generate_keypair();
    let cfg = UserConfig { url: s("ws://x"), uuid: s("u"), secret: s("AA=="), public: b64(&not_a_point) };
    assert!(check_updates(&cfg, &vec![s("a")]).is_err());
    assert!(encrypt_request(&vec![s("a")], &b64(&pk.serialize_compressed())).is_ok());
}

#[test]
fn frame_wraps_json_in_base64() {
    let f = request_frame("id\"1", &vec![1, 2, 3]);
    let json = base64::engine::general_purpose::STANDARD.decode(f).unwrap();
    assert_eq!(String::from_utf8(json).unwrap(), "{\"uuid\":\"id\\\"1\",\"raw\":\"AQID\"}");
}

#[test]
fn check_updates_builds_frame() {
    let (sk, pk) = ecies::utils::generate_keypair();
    let cfg = UserConfig { url: s("ws://x"), uuid: s("u-1"), secret: b64(&sk.serialize()), public: b64(&pk.serialize()) };
    assert_eq!(cfg.check(), Ok(()));
    let frame = check_updates(&cfg, &vec![s("nginx")]).unwrap();
    let json = String::from_utf8(base64::engine::general_purpose::STANDARD.decode(frame).unwrap()).unwrap();
    assert!(json.starts_with("{\"uuid\":\"u-1\",\"raw\":\""));
    let raw = json.trim_start_matches("{\"uuid\":\"u-1\",\"raw\":\"").trim_end_matches("\"}");
    assert_eq!(decrypt_response(raw, &cfg.secret).unwrap(), b"bmdpbng=".to_vec());
}

#[test]
fn config_errors() {
    let cfg = UserConfig { url: s(""), uuid: s("u"), secret: s("AA=="), public: s("AA==") };
    assert_eq!(cfg.check(), Err(ConfigError::MissingUrl));
    let cfg = UserConfig { url: s("ws://x"), uuid: s("u"), secret: s("%"), public: s("AA==") };
    assert_eq!(cfg.check(), Err(ConfigError::BadSecretKey));
    let cfg = UserConfig { url: s("ws://x"), uuid: s("u"), secret: s("AA=="), public: s("%") };
    assert_eq!(cfg.check(), Err(ConfigError::BadPublicKey));
}

#[test]
fn scheduler_steps() {
    assert_eq!(after_tick(Some(2), true), NextStep::Sleep(7200));
    assert_eq!(after_tick(None, true), NextStep::Finish { failed: true });
    assert_eq!(after_tick(None, false), NextStep::Finish { failed: false });
    assert_eq!(after_tick(Some(u64::MAX), false), NextStep::Sleep(u64::MAX));
}

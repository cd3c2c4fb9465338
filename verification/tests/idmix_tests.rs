use idmix::encoder::custom::CustomEncoder;
use idmix::encoder::traits::EncoderDecoder;
use idmix::encoder::traits::IntEncoder;
use idmix::encoder::traits::StrDecoder;
use idmix::err::ChecksumStage;
use idmix::err::MixError;
use idmix::idmixer;
use idmix::sizeclass::classify;
use idmix::sizeclass::mask;
use idmix::sizeclass::salt_shift;
use idmix::sizeclass::SizeClass;
use idmix::MAX_U56;

#[test]
fn it_works() {
    assert_eq!(2 + 2, 4);
}

fn hex() -> CustomEncoder {
    CustomEncoder::new("0123456789abcdef").unwrap()
}

#[test]
fn round_trip_all_classes() {
    let keys = [0u64, 1, 12345678962342344, u64::MAX];
    let ids = [
        0u64,
        1,
        42,
        65535,
        65536,
        70000,
        4294967295,
        4294967296,
        123123345234,
        MAX_U56,
    ];
    let enc = hex();
    for &key in keys.iter() {
        for &id in ids.iter() {
            for _ in 0..10 {
                let s = idmixer::encode(key, id, &enc).unwrap();
                let back = idmixer::decode(key, s.as_str(), &enc).unwrap();
                assert_eq!(back, id);
            }
        }
    }
}

#[test]
fn domain_rejection() {
    let e = idmixer::mix(7, 1u64 << 56).unwrap_err();
    assert_eq!(
        e,
        MixError::Domain {
            id: 72057594037927936,
            limit: 72057594037927935
        }
    );
    let e = idmixer::mix(7, u64::MAX).unwrap_err();
    assert!(matches!(e, MixError::Domain { .. }));
}

#[test]
fn alphabet_validation() {
    let e = CustomEncoder::new("aa").unwrap_err();
    assert_eq!(e, MixError::DuplicateCharacter { c: 'a' });
    let e = CustomEncoder::new("a").unwrap_err();
    assert_eq!(e, MixError::AlphabetTooShort);
    let e = CustomEncoder::new("").unwrap_err();
    assert_eq!(e, MixError::AlphabetTooShort);
    assert!(CustomEncoder::new("ab").is_ok());
    let e = CustomEncoder::new("abcb").unwrap_err();
    assert_eq!(e, MixError::DuplicateCharacter { c: 'b' });
}

#[test]
fn zero_encodes_as_first_character() {
    let enc = hex();
    assert_eq!(enc.encode(0).unwrap(), "0");
    let bin = CustomEncoder::new("01").unwrap();
    assert_eq!(bin.encode(0).unwrap(), "0");
}

#[test]
fn codec_exact_values() {
    let enc = hex();
    assert_eq!(enc.encode(255).unwrap(), "ff");
    assert_eq!(enc.encode(4096).unwrap(), "1000");
    assert_eq!(enc.decode("ff".to_string()).unwrap(), 255);
    assert_eq!(enc.decode("1000".to_string()).unwrap(), 4096);
    assert_eq!(enc.decode("".to_string()).unwrap(), 0);
    let bin = CustomEncoder::new("01").unwrap();
    assert_eq!(bin.encode(5).unwrap(), "101");
    assert_eq!(bin.decode("101".to_string()).unwrap(), 5);
    assert_eq!(
        enc.decode("ffffffffffffffff".to_string()).unwrap(),
        u64::MAX
    );
}

#[test]
fn unknown_character() {
    let enc = hex();
    let e = enc.decode("xyz!".to_string()).unwrap_err();
    assert_eq!(e, MixError::InvalidCharacter { c: 'x' });
    let e = enc.decode("12g4".to_string()).unwrap_err();
    assert_eq!(e, MixError::InvalidCharacter { c: 'g' });
}

#[test]
fn overflow_on_decode() {
    let enc = hex();
    let seventeen_fs = "fffffffffffffffff".to_string();
    assert_eq!(seventeen_fs.len(), 17);
    let e = enc.decode(seventeen_fs).unwrap_err();
    assert_eq!(
        e,
        MixError::Overflow {
            value: 295147905179352825855u128,
            limit: u64::MAX
        }
    );
}

#[test]
fn wrong_key_with_odd_masked_difference_fails() {
    let key = 12345678962342344u64;
    let wrong = key ^ 1;
    for id in [7u64, 70000, 4294967297] {
        for nonce in 0..32u8 {
            let m = idmixer::mix_with(key, id, nonce).unwrap();
            let e = idmixer::unmix(wrong, m).unwrap_err();
            assert_eq!(
                e,
                MixError::Checksum {
                    stage: ChecksumStage::Key
                }
            );
        }
    }
}

#[test]
fn tampered_value_fails_salt_check() {
    let key = 998877u64;
    let m = idmixer::mix_with(key, 123456, 9).unwrap();
    let e = idmixer::unmix(key, m ^ 1).unwrap_err();
    assert_eq!(
        e,
        MixError::Checksum {
            stage: ChecksumStage::RandSalt
        }
    );
}

#[test]
fn concrete_scenario() {
    let key = 12345678962342344u64;
    let id = 123123345234u64;
    let enc = hex();
    for _ in 0..20 {
        let s = idmixer::encode(key, id, &enc).unwrap();
        assert_eq!(idmixer::decode(key, s.as_str(), &enc).unwrap(), id);
    }
}

#[test]
fn size_class_boundaries() {
    assert_eq!(classify(65535), SizeClass::Small);
    assert_eq!(classify(65536), SizeClass::Medium);
    assert_eq!(classify(4294967295), SizeClass::Medium);
    assert_eq!(classify(4294967296), SizeClass::Large);
    assert_eq!(mask(SizeClass::Small), 65535);
    assert_eq!(mask(SizeClass::Medium), 4294967295);
    assert_eq!(mask(SizeClass::Large), MAX_U56);
    assert_eq!(salt_shift(SizeClass::Small), 8);
    assert_eq!(salt_shift(SizeClass::Medium), 16);
    assert_eq!(salt_shift(SizeClass::Large), 32);
}

#[test]
fn padding_path_round_trips() {
    // Medium id whose salted value collapses below the Small bound: the
    // mix must set the padding flag and still round-trip.
    let key = 0x1_0000u64;
    let id = 0x1_0000u64;
    let m = idmixer::mix_with(key, id, 1).unwrap();
    assert_eq!((m & 0b100) >> 2, 1);
    assert_eq!(idmixer::unmix(key, m).unwrap(), id);

    // The same collapse at the Large/Medium boundary.
    let key = 0x1_0000_0000u64;
    let id = 0x1_0000_0000u64;
    let m = idmixer::mix_with(key, id, 1).unwrap();
    assert_eq!((m & 0b100) >> 2, 1);
    assert_eq!(idmixer::unmix(key, m).unwrap(), id);

    // Unpadded cases keep the flag clear.
    let m = idmixer::mix_with(0, 70000, 3).unwrap();
    assert_eq!((m & 0b100) >> 2, 0);
    assert_eq!(idmixer::unmix(0, m).unwrap(), 70000);
}

#[test]
fn mix_embeds_five_bit_nonce() {
    // The drawn nonce sits in the top five bits of the control byte, so
    // it is always below 32; the round trip holds whatever was drawn.
    let key = 424242u64;
    for _ in 0..50 {
        let m = idmixer::mix(key, 98765).unwrap();
        assert!((m & 0xff) >> 3 < 32);
        assert_eq!(idmixer::unmix(key, m).unwrap(), 98765);
    }
}

#[test]
fn mix_with_is_deterministic() {
    let a = idmixer::mix_with(5, 1234, 17).unwrap();
    let b = idmixer::mix_with(5, 1234, 17).unwrap();
    assert_eq!(a, b);
}

#[test]
fn parity_check_values() {
    assert_eq!(idmixer::parity_check(0), 0);
    assert_eq!(idmixer::parity_check(1), 1);
    assert_eq!(idmixer::parity_check(3), 0);
    assert_eq!(idmixer::parity_check(7), 1);
    assert_eq!(idmixer::parity_check(u64::MAX), 0);
    assert_eq!(idmixer::parity_check(1u64 << 63), 1);
}

#[test]
fn facade_wrong_key_detection() {
    let enc = hex();
    let key = 555666777u64;
    let id = 424242u64;

    // A single flipped key bit gives the masked keys an odd difference:
    // every decode fails the key checksum.
    let wrong_odd = key ^ 1;
    for _ in 0..50 {
        let s = idmixer::encode(key, id, &enc).unwrap();
        let e = idmixer::decode(wrong_odd, s.as_str(), &enc).unwrap_err();
        assert_eq!(
            e,
            MixError::Checksum {
                stage: ChecksumStage::Key
            }
        );
    }

    // An even difference slips past both 1-bit parity checks: detection
    // is only probabilistic, as two flipped bits go unnoticed.
    let wrong_even = key ^ 3;
    let s = idmixer::encode(key, id, &enc).unwrap();
    assert_eq!(idmixer::decode(wrong_even, s.as_str(), &enc).unwrap(), id);
}

#[test]
fn base36_sugar_error_paths() {
    let password = 42u64;
    let e = "zzzzzzzzzzzzz".decode(password).unwrap_err();
    assert!(matches!(e, MixError::Overflow { .. }));
    let e = "Hello".decode(password).unwrap_err();
    assert_eq!(e, MixError::InvalidCharacter { c: 'H' });
    let e = (1u64 << 56).encode(password).unwrap_err();
    assert!(matches!(e, MixError::Domain { .. }));
    let e = (1u64 << 56).mix(password).unwrap_err();
    assert_eq!(
        e,
        MixError::Domain {
            id: 1u64 << 56,
            limit: MAX_U56
        }
    );
}

#[test]
fn base36_sugar_round_trip() {
    let password = 12345678962342344u64;
    let id = 123123345234u64;
    let s = id.encode(password).unwrap();
    assert_eq!(s.decode(password).unwrap(), id);
    assert_eq!(s.as_str().decode(password).unwrap(), id);

    let m = id.mix(password).unwrap();
    assert_eq!(m.unmix(password).unwrap(), id);
}

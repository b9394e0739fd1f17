use onewire::ds18b20::{split_temp, MeasureResolution, FAMILY_CODE};
use onewire::{compute_crc8, ensure_correct_rcr8, Device, Error, MalformedAddress, DS18B20};

#[test]
fn test_temp_conv() {
    assert_eq!(split_temp(0x07d0), (125, 0));
    assert_eq!(split_temp(0x0550), (85, 0));
    assert_eq!(split_temp(0x0191), (25, 625)); // 25.0625
    assert_eq!(split_temp(0x00A2), (10, 1250)); // 10.125
    assert_eq!(split_temp(0x0008), (0, 5000)); // 0.5
    assert_eq!(split_temp(0x0000), (0, 0)); // 0
    assert_eq!(split_temp(0xfff8), (0, -5000)); // -0.5
    assert_eq!(split_temp(0xFF5E), (-10, -1250)); // -10.125
    assert_eq!(split_temp(0xFE6F), (-25, -625)); // -25.0625
    assert_eq!(split_temp(0xFC90), (-55, 0)); // -55
}

#[test]
fn split_temp_is_exact_with_matching_signs_for_every_raw_value() {
    for raw in 0..=u16::MAX {
        let (whole, fraction) = split_temp(raw);
        let value = raw as i16 as i32;
        assert_eq!(whole as i32 * 10000 + fraction as i32, value * 625, "raw {:#06x}", raw);
        assert!(fraction > -10000 && fraction < 10000);
        if value >= 0 {
            assert!(whole >= 0 && fraction >= 0);
        } else {
            assert!(whole <= 0 && fraction <= 0);
        }
    }
}

#[test]
fn split_temp_of_the_most_negative_value() {
    assert_eq!(split_temp(0x8000), (-2048, 0));
    assert_eq!(split_temp(0x7fff), (2047, 9375));
}

#[test]
fn resolution_conversion_times() {
    assert_eq!(MeasureResolution::TC8.time_ms(), 94);
    assert_eq!(MeasureResolution::TC4.time_ms(), 188);
    assert_eq!(MeasureResolution::TC2.time_ms(), 375);
    assert_eq!(MeasureResolution::TC.time_ms(), 750);
}

#[test]
fn resolution_register_values() {
    assert_eq!(MeasureResolution::TC8.register_value(), 0x1F);
    assert_eq!(MeasureResolution::TC4.register_value(), 0x3F);
    assert_eq!(MeasureResolution::TC2.register_value(), 0x5F);
    assert_eq!(MeasureResolution::TC.register_value(), 0x7F);
}

#[test]
fn from_str_reads_canonical_text_only() {
    let parsed: Result<Device, MalformedAddress> = "28:ff:00:1a:2b:3c:4d:5e".parse();
    assert_eq!(parsed, Ok(Device { address: [0x28, 0xff, 0x00, 0x1a, 0x2b, 0x3c, 0x4d, 0x5e] }));
    for text in ["28-ff-00-1a-2b-3c-4d-5e", "28:ff:00:1a:2b:3c:4d:5e:", "28:ff", "a\u{e9}:ff:00:1a:2b:3c:4d:5e"] {
        let r: Result<Device, MalformedAddress> = text.parse();
        assert_eq!(r, Err(MalformedAddress), "{}", text);
    }
}

#[test]
fn crc_of_a_known_rom_address() {
    // the family 0x02 example address of the Dallas application note on CRCs
    let device = Device { address: [0x02, 0x1C, 0xB8, 0x01, 0x00, 0x00, 0x00, 0xA2] };
    assert!(device.has_valid_crc());
    // a checksum followed by itself leaves the register at zero
    assert_eq!(compute_crc8(&device, &[]), 0);
    let broken = Device { address: [0x02, 0x1C, 0xB8, 0x01, 0x00, 0x00, 0x00, 0xA3] };
    assert!(!broken.has_valid_crc());
}

#[test]
fn crc_covers_address_and_data() {
    let device = Device { address: [0x28, 0xFF, 0x64, 0x1E, 0x0F, 0x16, 0x03, 0x00] };
    let data = [0x91u8, 0x01, 0x4B, 0x46, 0x7F, 0xFF, 0x0F, 0x10];
    let crc = compute_crc8(&device, &data);
    assert_eq!(ensure_correct_rcr8::<()>(&device, &data, crc), Ok(()));
    // every single-bit change of the data is caught
    for i in 0..data.len() {
        for bit in 0..8 {
            let mut changed = data;
            changed[i] ^= 1 << bit;
            assert_ne!(compute_crc8(&device, &changed), crc);
        }
    }
}

#[test]
fn crc_mismatch_reports_both_values() {
    let device = Device { address: [0x28, 1, 2, 3, 4, 5, 6, 7] };
    let data = [1u8, 2, 3];
    let computed = compute_crc8(&device, &data);
    let wrong = computed.wrapping_add(1);
    match ensure_correct_rcr8::<()>(&device, &data, wrong) {
        Err(Error::CrcMismatch { computed: c, expected: e }) => {
            assert_eq!(c, computed);
            assert_eq!(e, wrong);
        }
        other => panic!("unexpected {:?}", other),
    }
}

#[test]
fn address_text_round_trip() {
    let text = "28:ff:64:1e:0f:16:03:5a";
    let device = Device::parse(text).unwrap();
    assert_eq!(device.address, [0x28, 0xff, 0x64, 0x1e, 0x0f, 0x16, 0x03, 0x5a]);
    assert_eq!(device.family_code(), 0x28);
    assert_eq!(device.to_string(), text);
    let parsed: Device = text.parse().unwrap();
    assert_eq!(parsed, device);
}

#[test]
fn address_formatting_uses_lowercase_pairs() {
    let device = Device { address: [0x00, 0x0a, 0xb0, 0xff, 0x10, 0x09, 0xc3, 0x7e] };
    assert_eq!(device.to_string(), "00:0a:b0:ff:10:09:c3:7e");
    assert_eq!(Device::parse(&device.to_string()), Ok(device));
}

#[test]
fn malformed_address_texts_are_refused() {
    let bad = [
        "",
        "28:ff:64:1e:0f:16:03",
        "28:ff:64:1e:0f:16:03:5a:",
        "28:ff:64:1e:0f:16:03:5a0",
        "28-ff-64-1e-0f-16-03-5a",
        "28:FF:64:1e:0f:16:03:5a",
        "28:fg:64:1e:0f:16:03:5a",
        "28:ff:64:1e:0f:16:03:+a",
        "28:ff:64:1e:0f:16:03:5é",
    ];
    for text in bad {
        assert_eq!(Device::parse(text), Err(MalformedAddress), "{}", text);
    }
}

#[test]
fn sensor_requires_its_family() {
    let sensor = Device { address: [FAMILY_CODE, 1, 2, 3, 4, 5, 6, 7] };
    assert!(DS18B20::new(sensor).is_ok());
    assert_eq!(DS18B20::family_code(), 0x28);
    let other = Device { address: [0x10, 1, 2, 3, 4, 5, 6, 7] };
    match DS18B20::new(other) {
        Err(Error::FamilyCodeMismatch { expected, actual }) => {
            assert_eq!(expected, 0x28);
            assert_eq!(actual, 0x10);
        }
        _ => panic!("a device of family 0x10 was accepted"),
    }
}

#[test]
fn scratchpad_decoding_checks_the_crc() {
    let device = Device { address: [FAMILY_CODE, 0xAA, 0x55, 1, 2, 3, 4, 5] };
    let sensor = DS18B20::new_forced(device);
    let mut scratchpad = [0x91u8, 0x01, 0x4B, 0x46, 0x7F, 0xFF, 0x0F, 0x10, 0];
    scratchpad[8] = compute_crc8(&device, &scratchpad[..8]);
    assert_eq!(sensor.temperature_from_scratchpad::<()>(&scratchpad), Ok(0x0191));
    // a change of any one byte surfaces as a mismatch with the read values
    for i in 0..9 {
        let mut bad = scratchpad;
        bad[i] ^= 0x21;
        let expected_crc = compute_crc8(&device, &bad[..8]);
        match sensor.temperature_from_scratchpad::<()>(&bad) {
            Err(Error::CrcMismatch { computed, expected }) => {
                assert_eq!(computed, expected_crc);
                assert_eq!(expected, bad[8]);
            }
            other => panic!("byte {} changed and got {:?}", i, other),
        }
    }
}

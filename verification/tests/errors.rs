use dns_parser::error::Error;
use dns_parser::header::Header;
use dns_parser::message::Message;
use dns_parser::name::{DnsName, NamePositions};
use dns_parser::rdata_wire::bytes_to_hex_string;
use dns_parser::resource_record::{RData, ResourceRecord};

/// A record with the root as owner name, class IN, TTL 60 and the given RDATA.
fn record_bytes(record_type: u16, rdata: &[u8]) -> Vec<u8> {
    let mut b = vec![0u8];
    b.extend_from_slice(&record_type.to_be_bytes());
    b.extend_from_slice(&[0, 1, 0, 0, 0, 60]);
    b.extend_from_slice(&(rdata.len() as u16).to_be_bytes());
    b.extend_from_slice(rdata);
    b
}

fn parse_error(bytes: &[u8]) -> Error {
    match ResourceRecord::parse(bytes, 0) {
        Ok(_) => panic!("expected an error"),
        Err(e) => e,
    }
}

#[test]
fn short_input_is_an_underrun() {
    assert_eq!(Header::parse(&[0u8; 11]).unwrap_err(), Error::Underrun);
    assert_eq!(Message::parse(&[0u8; 5]).unwrap_err(), Error::Underrun);
    assert_eq!(parse_error(&[0u8; 10]), Error::Underrun);
    let mut truncated = record_bytes(1, &[1, 2, 3, 4]);
    truncated.pop();
    assert_eq!(parse_error(&truncated), Error::Underrun);
    // a header that announces a question that is not there
    let header = [0u8, 1, 0, 0, 0, 1, 0, 0, 0, 0, 0, 0];
    assert_eq!(Message::parse(&header).unwrap_err(), Error::Underrun);
}

#[test]
fn address_of_the_wrong_length() {
    assert_eq!(
        parse_error(&record_bytes(1, &[1, 2, 3, 4, 5])),
        Error::InvalidRDataLength { expected: 4, actual: 5 }
    );
    assert_eq!(
        parse_error(&record_bytes(28, &[0; 4])),
        Error::InvalidRDataLength { expected: 16, actual: 4 }
    );
    assert_eq!(
        parse_error(&record_bytes(43, &[0, 1, 2])),
        Error::InvalidRDataLength { expected: 4, actual: 3 }
    );
}

#[test]
fn rdata_that_does_not_fill_its_length_is_malformed() {
    assert_eq!(parse_error(&record_bytes(15, &[0, 10])), Error::InvalidFormat);
    assert_eq!(parse_error(&record_bytes(5, &[0, 1, 2, 3, 4])), Error::InvalidFormat);
}

#[test]
fn character_string_past_its_rdata() {
    assert_eq!(parse_error(&record_bytes(16, &[5, b'a'])), Error::InvalidCharacterStringLength);
}

#[test]
fn internal_field_past_its_rdata() {
    assert_eq!(
        parse_error(&record_bytes(50, &[1, 0, 0, 10, 9, 1, 2])),
        Error::InvalidInternalFieldLength
    );
    assert_eq!(parse_error(&record_bytes(257, &[0, 5, b'a'])), Error::InvalidInternalFieldLength);
}

#[test]
fn caa_tag_must_be_utf8() {
    assert_eq!(parse_error(&record_bytes(257, &[0, 1, 0xFF])), Error::InvalidCaaTagEncoding);
    let (rr, _) = ResourceRecord::parse(&record_bytes(257, &[128, 5, b'i', b's', b's', b'u', b'e', b'x']), 0).unwrap();
    match rr.data {
        RData::CAA { flags, tag, value } => {
            assert_eq!(flags, 128);
            assert_eq!(tag, "issue");
            assert_eq!(value, b"x".to_vec());
        }
        other => panic!("unexpected {:?}", other),
    }
}

#[test]
fn text_that_is_not_utf8_comes_out_in_hexadecimal() {
    let bytes = record_bytes(16, &[2, 0xFF, 0x00, 2, 0xC3, 0xA9, 0]);
    let (rr, used) = ResourceRecord::parse(&bytes, 0).unwrap();
    assert_eq!(used, bytes.len());
    match rr.data {
        RData::TXT(strings) => {
            assert_eq!(strings, vec!["0xff00".to_string(), "\u{e9}".to_string(), String::new()]);
        }
        other => panic!("unexpected {:?}", other),
    }
    assert_eq!(bytes_to_hex_string(&[0xDE, 0xAD, 0x00, 0x0F]), "dead000f");
    assert_eq!(bytes_to_hex_string(&[]), "");
}

#[test]
fn names_that_are_not_valid() {
    assert_eq!(DnsName::new("www.*.example.com").unwrap_err(), Error::InvalidName);
    assert_eq!(DnsName::new("bad!.example.com").unwrap_err(), Error::InvalidName);
    let long_label = "a".repeat(64);
    assert_eq!(DnsName::new(&long_label).unwrap_err(), Error::InvalidName);
    let long_name = vec!["abcdefghi"; 26].join(".");
    assert_eq!(DnsName::new(&long_name).unwrap_err(), Error::InvalidName);
    let fits = vec!["abcdefghi"; 25].join(".");
    assert!(DnsName::new(&fits).is_ok());
    // 3 * (63 + 1) + (62 + 1) + 1 = 256 wire bytes: one too many
    let a63 = "a".repeat(63);
    let too_long = format!("{}.{}.{}.{}", a63, a63, a63, "b".repeat(62));
    assert_eq!(DnsName::new(&too_long).unwrap_err(), Error::InvalidName);
    let just_fits = format!("{}.{}.{}.{}", a63, a63, a63, "b".repeat(61));
    let n = DnsName::new(&just_fits).unwrap();
    let mut buffer = Vec::new();
    let mut positions = NamePositions::new();
    assert_eq!(n.write(&mut buffer, &mut positions), 255);
    let (back, used) = DnsName::parse(&buffer, 0, &buffer).unwrap();
    assert_eq!(back.labels(), n.labels());
    assert_eq!(used, 255);
    assert_eq!(DnsName::parse(&[0x40], 0, &[0x40]).unwrap_err(), Error::InvalidName);
    let bad_wire = [3u8, b'a', b'!', b'c', 0];
    assert_eq!(DnsName::parse(&bad_wire, 0, &bad_wire).unwrap_err(), Error::InvalidName);
}

#[test]
fn compression_pointers_that_lead_nowhere() {
    let outside = [0xC0u8, 0x05, 0];
    assert_eq!(DnsName::parse(&outside, 0, &outside).unwrap_err(), Error::InvalidCompressionPointer);
    let forward = [0xC0u8, 0x02, 0];
    assert_eq!(DnsName::parse(&forward, 0, &forward).unwrap_err(), Error::InvalidCompressionPointer);
    let looping = [0xC0u8, 0x02, 0xC0, 0x00, 0xC0, 0x00];
    assert_eq!(DnsName::parse(&looping, 4, &looping).unwrap_err(), Error::CompressionLoop);
    let cut = [3u8, b'w', b'w', b'w', 0xC0];
    assert_eq!(DnsName::parse(&cut, 0, &cut).unwrap_err(), Error::Underrun);
}

#[test]
fn error_texts() {
    assert_eq!(Error::Underrun.to_string(), "buffer underrun: less data than expected");
    assert_eq!(Error::Overrun.to_string(), "buffer overrun: more data parsed than expected by RDLENGTH");
    assert_eq!(Error::InvalidName.to_string(), "invalid DNS name format");
    assert_eq!(Error::InvalidFormat.to_string(), "invalid DNS message format");
    assert_eq!(
        Error::InvalidRDataLength { expected: 16, actual: 0 }.to_string(),
        "invalid RDATA length: expected 16, got 0"
    );
    assert_eq!(
        Error::InvalidCharacterStringLength.to_string(),
        "invalid length for character string (e.g., TXT)"
    );
    assert_eq!(
        Error::InvalidInternalFieldLength.to_string(),
        "invalid length for internal RDATA field (e.g., NSEC3 salt)"
    );
    assert_eq!(
        Error::InvalidCompressionPointer.to_string(),
        "compression pointer points outside valid buffer range"
    );
    assert_eq!(Error::CompressionLoop.to_string(), "compression pointer loop detected");
    assert_eq!(Error::InvalidRecordTypeValue(65535).to_string(), "invalid record type value: 65535");
    assert_eq!(Error::InvalidClassValue(9).to_string(), "invalid class value: 9");
    assert_eq!(Error::InvalidOpCodeValue(15).to_string(), "invalid opcode value: 15");
    assert_eq!(Error::InvalidRCodeValue(200).to_string(), "invalid rcode value: 200");
    assert_eq!(Error::InvalidCaaTagEncoding.to_string(), "invalid UTF-8 encoding in CAA tag");
    assert_eq!(Error::Other("custom".to_string()).to_string(), "custom");
}

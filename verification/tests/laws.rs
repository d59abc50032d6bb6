use dns_parser::header::Header;
use dns_parser::message::Message;
use dns_parser::name::{DnsName, NamePositions};
use dns_parser::question::Question;
use dns_parser::resource_record::{RData, ResourceRecord};
use dns_parser::types::{Class, EdnsOption, OpCode, RecordType, ResponseCode};

fn sample_message() -> Message {
    let mut m = Message::new_response(4321, ResponseCode::NoError);
    m.add_question(Question::new(DnsName::new("example.com").unwrap(), RecordType::MX, Class::IN));
    m.add_answer(ResourceRecord::new(
        DnsName::new("example.com").unwrap(),
        RecordType::MX,
        Class::IN,
        300,
        RData::MX { preference: 10, exchange: DnsName::new("mail.example.com").unwrap() },
    ));
    m.add_answer(ResourceRecord::new(
        DnsName::new("example.com").unwrap(),
        RecordType::TXT,
        Class::IN,
        300,
        RData::TXT(vec!["v=spf1 -all".to_string(), String::new()]),
    ));
    m.add_authority(ResourceRecord::new(
        DnsName::new("example.com").unwrap(),
        RecordType::NS,
        Class::IN,
        86400,
        RData::NS(DnsName::new("ns1.example.com").unwrap()),
    ));
    m.add_additional(ResourceRecord::new(
        DnsName::new("mail.example.com").unwrap(),
        RecordType::AAAA,
        Class::IN,
        300,
        RData::AAAA([0x20, 0x01, 0x0d, 0xb8, 0, 0, 0, 0, 0, 0, 0, 0, 0, 0, 0, 1]),
    ));
    m.add_additional(ResourceRecord::new(
        DnsName::new("example.com").unwrap(),
        RecordType::Unknown(65280),
        Class::Unknown(42),
        7,
        RData::Unknown(vec![1, 2, 3]),
    ));
    m
}

#[test]
fn message_reads_back_as_written() {
    let m = sample_message();
    let bytes = m.to_bytes();
    let parsed = Message::parse(&bytes).unwrap();
    assert_eq!(format!("{:?}", parsed), format!("{:?}", m));
    assert_eq!(parsed.to_bytes(), bytes);
}

#[test]
fn names_are_compressed_against_earlier_suffixes() {
    let mut buffer = Vec::new();
    let mut positions = NamePositions::new();
    let first = DnsName::new("example.com").unwrap();
    let second = DnsName::new("www.example.com").unwrap();
    assert_eq!(first.write(&mut buffer, &mut positions), 13);
    assert_eq!(second.write(&mut buffer, &mut positions), 6);
    let expected: Vec<u8> = vec![
        7, b'e', b'x', b'a', b'm', b'p', b'l', b'e', 3, b'c', b'o', b'm', 0, 3, b'w', b'w', b'w', 0xC0,
        0x00,
    ];
    assert_eq!(buffer, expected);
    assert_eq!(positions.len(), 2);
    let (back, used) = DnsName::parse(&buffer, 13, &buffer).unwrap();
    assert_eq!(back.to_string(), "www.example.com");
    assert_eq!(used, 6);
}

#[test]
fn edns_values_read_back_as_set() {
    let mut m = Message::new_query(7, "example.org", RecordType::AAAA).unwrap();
    m.add_edns_options(1232, 1, 0, 0x8000, vec![(EdnsOption::Cookie.to_u16(), vec![1, 2, 3, 4, 5, 6, 7, 8])]);
    let (udp, ext, ver, flags, options) = m.get_edns_options().unwrap();
    assert_eq!((udp, ext, ver, flags), (1232, 1, 0, 0x8000));
    assert_eq!(options, vec![(10u16, vec![1u8, 2, 3, 4, 5, 6, 7, 8])]);

    // setting them again replaces the OPT record instead of adding one
    m.add_edns_options(4096, 0, 0, 0, vec![]);
    assert_eq!(m.additionals.len(), 1);
    assert_eq!(m.header.additional_count, 1);
    assert_eq!(m.get_edns_options().unwrap(), (4096, 0, 0, 0, vec![]));

    let parsed = Message::parse(&m.to_bytes()).unwrap();
    assert_eq!(parsed.get_edns_options().unwrap(), (4096, 0, 0, 0, vec![]));
}

#[test]
fn padding_reaches_the_target_exactly() {
    for target in [64usize, 100, 128, 468, 512] {
        let mut m = Message::new_query(1, "a.example.net", RecordType::A).unwrap();
        m.add_padding(target).unwrap();
        assert_eq!(m.to_bytes().len(), target);
    }
}

#[test]
fn padding_leaves_a_long_enough_message_alone() {
    let mut m = Message::new_query(1, "example.com", RecordType::A).unwrap();
    let before = m.to_bytes();
    m.add_padding(before.len()).unwrap();
    assert_eq!(m.to_bytes(), before);
    m.add_padding(10).unwrap();
    assert_eq!(m.to_bytes(), before);
    assert!(m.additionals.is_empty());
}

#[test]
fn padding_keeps_edns_values_and_replaces_old_padding() {
    let mut m = Message::new_query(2, "example.com", RecordType::A).unwrap();
    m.add_edns_options(1400, 3, 0, 0x8000, vec![(12, vec![0; 5]), (3, b"id".to_vec())]);
    m.add_padding(200).unwrap();
    assert_eq!(m.to_bytes().len(), 200);
    let (udp, ext, ver, flags, options) = m.get_edns_options().unwrap();
    assert_eq!((udp, ext, ver, flags), (1400, 3, 0, 0x8000));
    assert_eq!(options.len(), 2);
    assert_eq!(options[0], (3, b"id".to_vec()));
    assert_eq!(options[1].0, 12);
    assert!(options[1].1.iter().all(|b| *b == 0));
}

#[test]
fn padding_too_short_a_target_adds_an_empty_padding_option() {
    let mut m = Message::new_query(3, "example.com", RecordType::A).unwrap();
    let size = m.to_bytes().len();
    m.add_padding(size + 5).unwrap();
    assert_eq!(m.to_bytes().len(), size + 15);
    let (_, _, _, _, options) = m.get_edns_options().unwrap();
    assert_eq!(options, vec![(12u16, vec![])]);
}

#[test]
fn name_text_builds_the_same_name() {
    for text in ["www.example.com", "_sip._tcp.example.com", "*.example.com", "."] {
        let n = DnsName::new(text).unwrap();
        let again = DnsName::new(&n.to_string()).unwrap();
        assert_eq!(again.labels(), n.labels());
    }
    let sloppy = DnsName::new("example.com.").unwrap();
    assert_eq!(sloppy.to_string(), "example.com");
    assert_eq!(DnsName::new("").unwrap().to_string(), ".");
}

#[test]
fn codes_read_back() {
    for v in [1u16, 2, 5, 6, 12, 15, 16, 28, 33, 41, 43, 46, 47, 48, 50, 51, 255, 257, 0, 99, 65535] {
        assert_eq!(RecordType::from_u16(v).to_u16(), v);
        assert_eq!(Class::from_u16(v).to_u16(), v);
    }
    assert!(matches!(RecordType::from_u16(28), RecordType::AAAA));
    assert!(matches!(RecordType::from_u16(99), RecordType::Unknown(99)));
    assert!(matches!(Class::from_u16(255), Class::ANY));
    for v in 0u8..=20 {
        assert_eq!(ResponseCode::from_u8(v).to_u8(), v);
        assert_eq!(OpCode::from_u8(v).to_u8(), v);
    }
    assert!(matches!(ResponseCode::from_u8(3), ResponseCode::NameError));
    assert!(matches!(OpCode::from_u8(2), OpCode::Status));
    assert_eq!(EdnsOption::from_u16(12), 12);
    assert_eq!(EdnsOption::Padding.to_u16(), 12);
    assert_eq!(EdnsOption::NSID.to_u16(), 3);
}

#[test]
fn header_flags_read_back() {
    let mut h = Header::new_response(0xBEEF, ResponseCode::Refused);
    h.opcode = OpCode::Status;
    h.authoritative_answer = true;
    h.truncation = true;
    h.recursion_available = true;
    h.authentic_data = true;
    h.checking_disabled = true;
    h.question_count = 1;
    h.answer_count = 2;
    h.nameserver_count = 3;
    h.additional_count = 4;
    let mut buffer = Vec::new();
    h.write(&mut buffer);
    assert_eq!(buffer, vec![0xBE, 0xEF, 0x96, 0xB5, 0, 1, 0, 2, 0, 3, 0, 4]);
    let (back, used) = Header::parse(&buffer).unwrap();
    assert_eq!(used, 12);
    assert_eq!(format!("{:?}", back), format!("{:?}", h));
}

#[test]
fn query_bytes_are_exact() {
    let bytes = Message::create_query(0x1234, "a.bc", RecordType::A).unwrap();
    let expected: Vec<u8> = vec![
        0x12, 0x34, 0x01, 0x00, 0, 1, 0, 0, 0, 0, 0, 0, 1, b'a', 2, b'b', b'c', 0, 0, 1, 0, 1,
    ];
    assert_eq!(bytes, expected);
}

#[test]
fn long_fresh_names_and_large_records_read_back() {
    let text = vec!["x"; 120].join(".");
    let name = DnsName::new(&text).unwrap();
    assert_eq!(name.labels().len(), 120);
    let mut buffer = Vec::new();
    let mut positions = NamePositions::new();
    let size = name.write(&mut buffer, &mut positions);
    let (back, used) = DnsName::parse(&buffer, 0, &buffer).unwrap();
    assert_eq!(back.labels(), name.labels());
    assert_eq!(used, size);

    let strings: Vec<String> = (0..100).map(|i| format!("{:0200}", i)).collect();
    let record = ResourceRecord::new(name.clone(), RecordType::TXT, Class::IN, 5, RData::TXT(strings));
    let mut buffer = Vec::new();
    let mut positions = NamePositions::new();
    let written = record.write(&mut buffer, &mut positions);
    assert!(written > 0x4000);
    let (parsed, used) = ResourceRecord::parse(&buffer, 0).unwrap();
    assert_eq!(used, buffer.len());
    assert_eq!(format!("{:?}", parsed), format!("{:?}", record));
}

#[test]
fn recorded_positions_can_be_read() {
    let mut buffer = Vec::new();
    let mut positions = NamePositions::new();
    DnsName::new("mail.example.com").unwrap().write(&mut buffer, &mut positions);
    let whole = DnsName::new("mail.example.com").unwrap();
    let suffix = DnsName::new("example.com").unwrap();
    let last = DnsName::new("com").unwrap();
    assert_eq!(positions.get(whole.labels()), Some(0));
    assert_eq!(positions.get(suffix.labels()), Some(5));
    assert_eq!(positions.get(last.labels()), None);
}

#[test]
fn padding_with_opt_in_the_middle_reaches_the_target() {
    let mut m = Message::new_query(9, "example.com", RecordType::A).unwrap();
    m.add_edns_options(1232, 0, 0, 0, vec![(3, b"abc".to_vec())]);
    m.add_additional(ResourceRecord::new(
        DnsName::new("ns.example.com").unwrap(),
        RecordType::A,
        Class::IN,
        60,
        RData::A([192, 0, 2, 1]),
    ));
    m.add_padding(300).unwrap();
    assert_eq!(m.to_bytes().len(), 300);
    assert_eq!(m.additionals.len(), 2);
    assert!(matches!(m.additionals[0].record_type, RecordType::A));
    assert!(matches!(m.additionals[1].record_type, RecordType::OPT));
}

#[test]
fn message_with_a_long_name_reads_back() {
    let text = vec!["y"; 110].join(".");
    let mut m = Message::new_query(5, &text, RecordType::TXT).unwrap();
    m.add_answer(ResourceRecord::new(
        DnsName::new("other.example").unwrap(),
        RecordType::TXT,
        Class::IN,
        1,
        RData::TXT(vec!["t".to_string()]),
    ));
    let bytes = m.to_bytes();
    let parsed = Message::parse(&bytes).unwrap();
    assert_eq!(format!("{:?}", parsed), format!("{:?}", m));
}

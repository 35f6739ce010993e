use oxidns::v2ray::model::{
    Attribute, Cidr, Domain, DomainType, GeoIp, GeoIpList, GeoSite, GeoSiteList, TypedValue,
};
use oxidns::v2ray::parser::{
    geoip_entry, geosite_entry, next_geoip_entry, next_geosite_entry, next_payload,
    read_top_level, visit_geoip_file, visit_geosite_file, TopLevelField,
};
use oxidns::v2ray::rules::{
    choose_dat_kind, cidr_to_rule, detect_dat_kind, domain_type, geoip_code, geosite_code,
    geosite_domain_expression, geosite_domain_expression_original,
    geosite_domain_expression_original_with_attrs, is_valid_geoip_list, is_valid_geosite_list,
    parse_geoip_dat, parse_geosite_dat, ParsedDat,
};
use oxidns::v2ray::wire::{
    read_required_varint, read_varint, skip_bytes, skip_field, Reader, MAX_PROTOBUF_GROUP_DEPTH,
};
use prost::encoding::{encode_key, encode_varint, WireType};

fn delimited(tag: u32, body: &[u8], out: &mut Vec<u8>) {
    encode_key(tag, WireType::LengthDelimited, out);
    encode_varint(body.len() as u64, out);
    out.extend_from_slice(body);
}

fn text(tag: u32, value: &str, out: &mut Vec<u8>) {
    if !value.is_empty() {
        prost::encoding::string::encode(tag, &value.to_string(), out);
    }
}

fn encode_domain(domain: &Domain) -> Vec<u8> {
    let mut out = Vec::new();
    if domain.kind != 0 {
        prost::encoding::int32::encode(1, &domain.kind, &mut out);
    }
    text(2, &domain.value, &mut out);
    for attribute in &domain.attribute {
        let mut inner = Vec::new();
        text(1, &attribute.key, &mut inner);
        match &attribute.typed_value {
            None => {}
            Some(TypedValue::BoolValue(b)) => prost::encoding::bool::encode(2, b, &mut inner),
            Some(TypedValue::IntValue(n)) => prost::encoding::int64::encode(3, n, &mut inner),
        }
        delimited(3, &inner, &mut out);
    }
    out
}

fn encode_geosite(entry: &GeoSite) -> Vec<u8> {
    let mut out = Vec::new();
    text(1, &entry.country_code, &mut out);
    for domain in &entry.domain {
        delimited(2, &encode_domain(domain), &mut out);
    }
    if !entry.resource_hash.is_empty() {
        prost::encoding::bytes::encode(3, &entry.resource_hash, &mut out);
    }
    text(4, &entry.code, &mut out);
    text(68000, &entry.file_path, &mut out);
    out
}

fn encode_geoip(entry: &GeoIp) -> Vec<u8> {
    let mut out = Vec::new();
    text(1, &entry.country_code, &mut out);
    for cidr in &entry.cidr {
        let mut inner = Vec::new();
        prost::encoding::bytes::encode(1, &cidr.ip, &mut inner);
        prost::encoding::uint32::encode(2, &cidr.prefix, &mut inner);
        delimited(2, &inner, &mut out);
    }
    if entry.inverse_match {
        prost::encoding::bool::encode(3, &entry.inverse_match, &mut out);
    }
    if !entry.resource_hash.is_empty() {
        prost::encoding::bytes::encode(4, &entry.resource_hash, &mut out);
    }
    text(5, &entry.code, &mut out);
    text(68000, &entry.file_path, &mut out);
    out
}

fn geosite_file(entries: &[GeoSite]) -> Vec<u8> {
    let mut out = Vec::new();
    for entry in entries {
        delimited(1, &encode_geosite(entry), &mut out);
    }
    out
}

fn geoip_file(entries: &[GeoIp]) -> Vec<u8> {
    let mut out = Vec::new();
    for entry in entries {
        delimited(1, &encode_geoip(entry), &mut out);
    }
    out
}

fn domain(kind: i32, value: &str) -> Domain {
    Domain { kind, value: value.to_string(), attribute: Vec::new() }
}

fn geosite(country_code: &str, domains: Vec<Domain>) -> GeoSite {
    GeoSite {
        country_code: country_code.to_string(),
        domain: domains,
        resource_hash: Vec::new(),
        code: String::new(),
        file_path: String::new(),
    }
}

fn geoip(country_code: &str, cidr: Vec<Cidr>) -> GeoIp {
    GeoIp {
        country_code: country_code.to_string(),
        cidr,
        inverse_match: false,
        resource_hash: Vec::new(),
        code: String::new(),
        file_path: String::new(),
    }
}

fn whole(bytes: &[u8]) -> Reader<'_> {
    Reader::new(bytes, bytes.len() as u64, None)
}

fn visit_error(bytes: &[u8]) -> String {
    visit_geosite_file(whole(bytes)).1.unwrap_err()
}

fn full_geosite() -> GeoSite {
    GeoSite {
        country_code: "CN".to_string(),
        domain: vec![
            Domain {
                kind: 2,
                value: "例子.cn".to_string(),
                attribute: vec![
                    Attribute { key: "ads".to_string(), typed_value: None },
                    Attribute {
                        key: "on".to_string(),
                        typed_value: Some(TypedValue::BoolValue(true)),
                    },
                    Attribute {
                        key: "off".to_string(),
                        typed_value: Some(TypedValue::BoolValue(false)),
                    },
                    Attribute {
                        key: "n".to_string(),
                        typed_value: Some(TypedValue::IntValue(-42)),
                    },
                ],
            },
            domain(-1, "odd"),
        ],
        resource_hash: vec![0, 255, 7],
        code: "cn".to_string(),
        file_path: "/a/b".to_string(),
    }
}

fn full_geoip() -> GeoIp {
    GeoIp {
        country_code: "US".to_string(),
        cidr: vec![
            Cidr { ip: vec![10, 0, 0, 0], prefix: 8 },
            Cidr { ip: vec![0; 16], prefix: u32::MAX },
        ],
        inverse_match: true,
        resource_hash: vec![1],
        code: "us".to_string(),
        file_path: "p".to_string(),
    }
}

#[test]
fn streams_entries_and_skips_unknown_top_level_fields() {
    let list = GeoSiteList {
        entry: vec![
            geosite("CN", vec![domain(2, "example.cn")]),
            geosite("US", vec![domain(3, "example.com")]),
        ],
    };
    let mut file = vec![0x10, 0x01];
    file.extend(geosite_file(&list.entry));
    let (entries, end) = visit_geosite_file(whole(&file));
    end.unwrap();
    let codes: Vec<&str> = entries.iter().map(geosite_code).collect();
    assert_eq!(codes, vec!["CN", "US"]);
}

#[test]
fn rejects_truncated_entry_payload() {
    let error = visit_error(&[0x0A, 0x05, 0x01]);
    assert!(error.contains("truncated protobuf entry payload"));
    assert_eq!(error, "truncated protobuf entry payload: declared 5 bytes, only 1 remain");
}

#[test]
fn rejects_overflowing_length_varint_without_allocating_payload() {
    let mut file = vec![0x0A];
    file.extend_from_slice(&[0xFF; 9]);
    file.extend_from_slice(&[0x02]);
    let error = visit_error(&file);
    assert!(error.contains("overflows u64"), "{error}");
}

#[test]
fn accepts_unknown_groups_at_recursion_limit() {
    let mut file = Vec::new();
    file.extend_from_slice(&[0x13; MAX_PROTOBUF_GROUP_DEPTH]);
    file.extend_from_slice(&[0x14; MAX_PROTOBUF_GROUP_DEPTH]);
    visit_geosite_file(whole(&file)).1.unwrap();
}

#[test]
fn rejects_unknown_groups_beyond_recursion_limit() {
    let file = [0x13; MAX_PROTOBUF_GROUP_DEPTH + 1];
    let error = visit_error(&file);
    assert!(error.contains("group nesting exceeds limit"), "{error}");
}

#[test]
fn reads_back_a_file_of_domain_lists() {
    let entries = vec![full_geosite(), geosite("US", vec![domain(3, "example.com")])];
    let file = geosite_file(&entries);
    assert_eq!(parse_geosite_dat(&file).unwrap().entry, entries);
    let (streamed, end) = visit_geosite_file(whole(&file));
    end.unwrap();
    assert_eq!(streamed, entries);
}

#[test]
fn reads_back_a_file_of_address_lists() {
    let entries = vec![full_geoip(), geoip("CN", vec![Cidr { ip: vec![1, 2, 3, 4], prefix: 32 }])];
    let file = geoip_file(&entries);
    assert_eq!(parse_geoip_dat(&file).unwrap().entry, entries);
    let (streamed, end) = visit_geoip_file(whole(&file));
    end.unwrap();
    assert_eq!(streamed, entries);
}

#[test]
fn entries_come_one_at_a_time() {
    let file = geosite_file(&[geosite("A", vec![]), geosite("B", vec![])]);
    let mut reader = whole(&file);
    assert_eq!(next_geosite_entry(&mut reader).unwrap().unwrap().country_code, "A");
    assert_eq!(next_geosite_entry(&mut reader).unwrap().unwrap().country_code, "B");
    assert!(next_geosite_entry(&mut reader).unwrap().is_none());

    let file = geoip_file(&[geoip("C", vec![])]);
    let mut reader = whole(&file);
    assert_eq!(next_geoip_entry(&mut reader).unwrap().unwrap().country_code, "C");
    assert!(next_geoip_entry(&mut reader).unwrap().is_none());
}

#[test]
fn entries_before_a_fault_are_visited() {
    let mut file = geosite_file(&[geosite("A", vec![])]);
    file.push(0x00);
    let (entries, end) = visit_geosite_file(whole(&file));
    assert_eq!(entries.len(), 1);
    assert_eq!(end.unwrap_err(), "protobuf field key must not be zero");
}

#[test]
fn each_fault_has_its_text() {
    assert_eq!(visit_error(&[0x08, 0x01]), "protobuf entry field has unexpected wire type 0");
    assert_eq!(visit_error(&[0x80]), "truncated protobuf varint: failed to fill whole buffer");
    assert_eq!(visit_error(&[0x0A]), "truncated protobuf varint: failed to fill whole buffer");
    assert_eq!(visit_error(&[0xFF; 12]), "protobuf varint overflows u64");
    assert_eq!(visit_error(&[0x11, 1]), "truncated protobuf field: failed to fill whole buffer");
    assert_eq!(visit_error(&[0x14]), "unexpected protobuf end-group field");
    assert_eq!(visit_error(&[0x13, 0x1C]), "mismatched protobuf end-group field");
    assert_eq!(visit_error(&[0x16]), "invalid protobuf wire type 6");
    let error = visit_error(&[0x0A, 0x01, 0x08]);
    assert!(
        error.starts_with("failed to decode protobuf entry: failed to decode Protobuf message: "),
        "{error}"
    );
}

#[test]
fn a_failure_to_read_is_no_end_of_file() {
    let failure = Some("disk on fire".to_string());
    let end = visit_geoip_file(Reader::new(&[], 10, failure.clone())).1;
    assert_eq!(end.unwrap_err(), "truncated protobuf varint: disk on fire");
    let end = visit_geoip_file(Reader::new(&[0x0A, 0x03, 0x01], 5, failure)).1;
    assert_eq!(end.unwrap_err(), "truncated protobuf entry payload: disk on fire");
}

#[test]
fn each_kind_of_unknown_field_is_passed_over() {
    let mut file = vec![0x10, 0x96, 0x01];
    file.extend_from_slice(&[0x11, 1, 2, 3, 4, 5, 6, 7, 8]);
    file.extend_from_slice(&[0x12, 3, 9, 9, 9]);
    file.extend_from_slice(&[0x13, 0x18, 0x05, 0x23, 0x24, 0x14]);
    file.extend_from_slice(&[0x15, 1, 2, 3, 4]);
    file.extend(geosite_file(&[geosite("A", vec![])]));
    let mut reader = whole(&file);
    for _ in 0..5 {
        assert!(matches!(read_top_level(&mut reader), Ok(TopLevelField::Other)));
    }
    assert!(matches!(read_top_level(&mut reader), Ok(TopLevelField::Entry(_))));
    assert!(matches!(read_top_level(&mut reader), Ok(TopLevelField::End)));

    let mut reader = whole(&file);
    assert_eq!(next_payload(&mut reader).unwrap(), Some(&[0x0A, 0x01, b'A'][..]));
    assert_eq!(next_payload(&mut reader).unwrap(), None);
}

#[test]
fn reads_back_varints() {
    for value in [0u64, 1, 127, 128, 300, u32::MAX as u64, 1 << 63, u64::MAX] {
        let mut bytes = Vec::new();
        encode_varint(value, &mut bytes);
        bytes.push(0x77);
        let mut reader = whole(&bytes);
        assert_eq!(read_varint(&mut reader, true), Ok(Some(value)));
        assert_eq!(reader.rest, &[0x77]);
        assert_eq!(reader.left, 1);
    }
    let mut reader = whole(&[]);
    assert_eq!(read_varint(&mut reader, true), Ok(None));
    assert_eq!(
        read_required_varint(&mut reader),
        Err("truncated protobuf varint: failed to fill whole buffer".to_string())
    );
}

#[test]
fn skips_bytes_and_fields() {
    let mut reader = whole(&[1, 2, 3, 4, 5]);
    assert_eq!(skip_bytes(&mut reader, 2), Ok(()));
    assert_eq!(skip_field(&mut reader, 0, 9, 0), Ok(()));
    assert_eq!(reader.rest, &[4, 5]);
    assert!(skip_bytes(&mut reader, 3).is_err());
    assert!(skip_field(&mut whole(&[0x14]), 3, 2, MAX_PROTOBUF_GROUP_DEPTH).is_err());
    assert!(skip_field(&mut whole(&[0x14]), 3, 2, MAX_PROTOBUF_GROUP_DEPTH - 1).is_ok());
}

#[test]
fn unknown_fields_inside_entries_are_passed_over() {
    let mut inner = encode_geosite(&geosite("A", vec![]));
    inner.extend_from_slice(&[0x38, 0x01, 0x3B, 0x40, 0x02, 0x3C]);
    let mut file = Vec::new();
    delimited(1, &inner, &mut file);
    let (entries, end) = visit_geosite_file(whole(&file));
    end.unwrap();
    assert_eq!(entries, vec![geosite("A", vec![])]);
}

#[test]
fn levels_of_unknown_groups_inside_messages_count_from_the_outermost() {
    // A group with number 7 that holds `n - 1` more of them.
    let nest = |n: usize| {
        let mut out = vec![0x3B; n];
        out.extend(vec![0x3C; n]);
        out
    };
    let entry = |n: usize| {
        let mut inner = encode_geosite(&geosite("A", vec![domain(0, "x")]));
        inner.extend(nest(n));
        inner
    };
    let list = |n: usize| {
        let mut file = Vec::new();
        delimited(1, &entry(n), &mut file);
        file
    };
    let streams = |n: usize| visit_geosite_file(whole(&list(n))).1.is_ok();
    let parses = |n: usize| parse_geosite_dat(&list(n)).is_ok();
    let streamed = (1..150).take_while(|n| streams(*n)).count();
    let parsed = (1..150).take_while(|n| parses(*n)).count();
    assert_eq!(streamed, parsed + 1);
    assert!(streams(streamed) && !streams(streamed + 1));
}

#[test]
fn detects_the_kind_of_a_file() {
    let sites = geosite_file(&[geosite("CN", vec![domain(2, "example.cn")])]);
    match detect_dat_kind(&sites) {
        Ok(ParsedDat::GeoSite(list)) => assert_eq!(list.entry.len(), 1),
        _ => panic!("expected domain lists"),
    }
    let ips = geoip_file(&[geoip("CN", vec![Cidr { ip: vec![10, 0, 0, 0], prefix: 8 }])]);
    match detect_dat_kind(&ips) {
        Ok(ParsedDat::GeoIp(list)) => assert_eq!(list.entry[0].cidr[0].prefix, 8),
        _ => panic!("expected address lists"),
    }
    assert_eq!(
        detect_dat_kind(&[]).err(),
        Some("failed to identify dat kind from file contents".to_string())
    );
}

#[test]
fn no_file_is_of_both_kinds() {
    // A list whose item has neither a domain's fields nor a block's.
    let mut inner = Vec::new();
    text(1, "CN", &mut inner);
    delimited(2, &[0x38, 0x01], &mut inner);
    let mut file = Vec::new();
    delimited(1, &inner, &mut file);
    assert!(visit_geosite_file(whole(&file)).1.is_ok());
    assert!(visit_geoip_file(whole(&file)).1.is_ok());
    assert!(parse_geosite_dat(&file).is_err());
    assert!(parse_geoip_dat(&file).is_err());
}

#[test]
fn two_readings_of_a_file_are_ambiguous() {
    assert_eq!(
        choose_dat_kind(
            Some(GeoSiteList { entry: vec![] }),
            Some(GeoIpList { entry: vec![] })
        )
        .err(),
        Some("dat kind is ambiguous; please pass --kind geosite or --kind geoip".to_string())
    );
}

#[test]
fn refuses_lists_that_cannot_be_used() {
    let site_error = |entries: &[GeoSite]| parse_geosite_dat(&geosite_file(entries)).unwrap_err();
    let invalid = "decoded geosite payload failed structural validation";
    assert_eq!(site_error(&[]), invalid);
    assert_eq!(site_error(&[geosite(" \t", vec![domain(0, "x")])]), invalid);
    assert_eq!(site_error(&[geosite("CN", vec![])]), invalid);
    assert_eq!(site_error(&[geosite("CN", vec![domain(0, "\u{3000}")])]), invalid);

    let ip_error = |entries: &[GeoIp]| parse_geoip_dat(&geoip_file(entries)).unwrap_err();
    let invalid = "decoded geoip payload failed structural validation";
    assert_eq!(ip_error(&[]), invalid);
    assert_eq!(ip_error(&[geoip("", vec![Cidr { ip: vec![0; 4], prefix: 0 }])]), invalid);
    assert_eq!(ip_error(&[geoip("CN", vec![])]), invalid);
    assert_eq!(ip_error(&[geoip("CN", vec![Cidr { ip: vec![0; 5], prefix: 0 }])]), invalid);

    let error = parse_geoip_dat(&[0x0A, 0x7F]).unwrap_err();
    assert!(error.starts_with("failed to decode Protobuf message: "), "{error}");
    let error = parse_geosite_dat(&[0x0B]).unwrap_err();
    assert!(error.starts_with("failed to decode Protobuf message: "), "{error}");
    assert!(is_valid_geosite_list(&GeoSiteList { entry: vec![full_geosite()] }));
    assert!(is_valid_geoip_list(&GeoIpList { entry: vec![full_geoip()] }));
}

#[test]
fn refuses_text_that_is_not_utf8() {
    let mut inner = Vec::new();
    prost::encoding::bytes::encode(1, &vec![0xFFu8, 0xFE], &mut inner);
    let mut file = Vec::new();
    delimited(1, &inner, &mut file);
    assert!(visit_geosite_file(whole(&file)).1.is_err());
}

#[test]
fn a_code_counts_before_a_country_code() {
    let mut entry = geosite("CN", vec![]);
    assert_eq!(geosite_code(&entry), "CN");
    entry.code = "cn".to_string();
    assert_eq!(geosite_code(&entry), "cn");
    let mut entry = geoip("US", vec![]);
    assert_eq!(geoip_code(&entry), "US");
    entry.code = "us".to_string();
    assert_eq!(geoip_code(&entry), "us");
}

#[test]
fn address_blocks_have_a_text() {
    let rule = |ip: Vec<u8>, prefix: u32| cidr_to_rule(&Cidr { ip, prefix });
    assert_eq!(rule(vec![192, 0, 2, 0], 24), Some("192.0.2.0/24".to_string()));
    let mut ip = vec![0u8; 16];
    assert_eq!(rule(ip.clone(), 0), Some("::/0".to_string()));
    ip[15] = 1;
    assert_eq!(rule(ip.clone(), 128), Some("::1/128".to_string()));
    ip[0] = 0x20;
    ip[1] = 0x01;
    ip[2] = 0x0D;
    ip[3] = 0xB8;
    assert_eq!(rule(ip.clone(), 32), Some("2001:db8::1/32".to_string()));
    ip[7] = 1;
    assert_eq!(rule(ip, 64), Some("2001:db8:0:1::1/64".to_string()));
    let mapped = vec![0, 0, 0, 0, 0, 0, 0, 0, 0, 0, 0xFF, 0xFF, 192, 0, 2, 1];
    assert_eq!(rule(mapped, 96), Some("::ffff:192.0.2.1/96".to_string()));
    let ones: Vec<u8> = (0..16).map(|i| (i % 2) as u8).collect();
    assert_eq!(rule(ones, 1), Some("1:1:1:1:1:1:1:1/1".to_string()));
    let one_zero = vec![0, 1, 0, 0, 0, 1, 0, 1, 0, 1, 0, 1, 0, 1, 0, 1];
    assert_eq!(rule(one_zero, 1), Some("1:0:1:1:1:1:1:1/1".to_string()));
    assert_eq!(rule(vec![1, 2, 3], 8), None);
}

#[test]
fn domains_have_expressions() {
    let cases = [
        (0, DomainType::Plain, "keyword:x", "plain:x"),
        (1, DomainType::Regex, "regexp:x", "regex:x"),
        (2, DomainType::RootDomain, "domain:x", "root_domain:x"),
        (3, DomainType::Full, "full:x", "full:x"),
    ];
    for (kind, known, rule, original) in cases {
        let domain = domain(kind, "x");
        assert_eq!(domain_type(&domain), Ok(known));
        assert_eq!(geosite_domain_expression(&domain), Ok(rule.to_string()));
        assert_eq!(geosite_domain_expression_original(&domain), Ok(original.to_string()));
    }
    let unknown = domain(-4, "x");
    let error = Err("unsupported domain type '-4' for 'x'".to_string());
    assert_eq!(geosite_domain_expression(&unknown), error);
    assert_eq!(geosite_domain_expression_original(&unknown), error);
    assert_eq!(geosite_domain_expression_original_with_attrs(&unknown), error);
}

#[test]
fn expressions_carry_attributes() {
    let mut domain = full_geosite().domain.swap_remove(0);
    assert_eq!(
        geosite_domain_expression_original_with_attrs(&domain),
        Ok("root_domain:例子.cn @ads @on @off=false @n=-42".to_string())
    );
    domain.attribute = vec![Attribute {
        key: String::new(),
        typed_value: Some(TypedValue::IntValue(i64::MIN)),
    }];
    assert_eq!(
        geosite_domain_expression_original_with_attrs(&domain),
        Ok("root_domain:例子.cn @=-9223372036854775808".to_string())
    );
}

#[test]
fn later_fields_replace_earlier_ones() {
    let mut inner = Vec::new();
    text(1, "first", &mut inner);
    text(1, "second", &mut inner);
    let mut file = Vec::new();
    delimited(1, &inner, &mut file);
    assert_eq!(visit_geosite_file(whole(&file)).0[0].country_code, "second");
}

#[test]
fn blocks_of_a_usable_list_have_rules() {
    let list = parse_geoip_dat(&geoip_file(&[full_geoip()])).unwrap();
    let rules: Vec<Option<String>> = list.entry[0].cidr.iter().map(cidr_to_rule).collect();
    assert_eq!(rules, vec![Some("10.0.0.0/8".to_string()), Some("::/4294967295".to_string())]);
}

#[test]
fn streaming_agrees_with_decoding_as_a_whole() {
    let entries = vec![full_geosite(), geosite("US", vec![domain(3, "example.com")])];
    let mut file = vec![0x13, 0x18, 0x05, 0x23, 0x24, 0x14];
    for entry in &entries {
        let mut inner = encode_geosite(entry);
        inner.extend_from_slice(&[0x38, 0x81, 0x00, 0x3B, 0x3C]);
        delimited(1, &inner, &mut file);
        file.extend_from_slice(&[0x15, 1, 2, 3, 4]);
    }
    assert_eq!(parse_geosite_dat(&file).unwrap().entry, entries);
    let (streamed, end) = visit_geosite_file(whole(&file));
    end.unwrap();
    assert_eq!(streamed, entries);
}

#[test]
fn a_window_that_holds_a_field_suffices() {
    let file = geosite_file(&[geosite("A", vec![]), geosite("B", vec![])]);
    let first = geosite_file(&[geosite("A", vec![])]);
    for end in first.len()..=file.len() {
        let mut reader = Reader::new(&file[..end], file.len() as u64, None);
        match read_top_level(&mut reader) {
            Ok(TopLevelField::Entry(payload)) => assert_eq!(payload, &first[2..]),
            _ => panic!("the window holds an entry"),
        }
        assert_eq!(reader.left, (file.len() - first.len()) as u64);
    }
    for end in 0..first.len() {
        let mut reader = Reader::new(&file[..end], file.len() as u64, None);
        assert!(!matches!(read_top_level(&mut reader), Ok(TopLevelField::Entry(_))));
    }
}

#[test]
fn a_fault_in_a_window_is_told_from_its_end() {
    let read = |bytes: &[u8]| {
        let mut reader = Reader::new(bytes, 100, Some("more".to_string()));
        read_top_level(&mut reader).err()
    };
    for cut in [&[][..], &[0x80], &[0x0A], &[0x0A, 5, 1], &[0x11, 1], &[0x13, 0x18]] {
        assert!(read(cut).unwrap().ends_with(": more"), "{cut:?}");
    }
    for fault in [&[0x00][..], &[0x08], &[0x16], &[0x13, 0x1C], &[0xFF; 10], &[0x0A, 0x7F]] {
        let error = read(fault).unwrap();
        assert!(!error.ends_with("more"), "{fault:?}");
        let mut longer = fault.to_vec();
        longer.extend_from_slice(&[1, 2, 3]);
        let mut reader = Reader::new(&longer, 100, None);
        assert_eq!(read_top_level(&mut reader).err(), Some(error));
    }
}

#[test]
fn payloads_are_decoded_by_themselves() {
    assert_eq!(geosite_entry(&encode_geosite(&full_geosite())), Ok(full_geosite()));
    assert_eq!(geoip_entry(&encode_geoip(&full_geoip())), Ok(full_geoip()));
    let error = geosite_entry(&[0x0A, 0x05]).unwrap_err();
    assert_eq!(
        error,
        "failed to decode protobuf entry: failed to decode Protobuf message: \
         GeoSite.country_code: buffer underflow"
    );
    let error = parse_geoip_dat(&[0x0A, 0x7F]).unwrap_err();
    assert_eq!(error, "failed to decode Protobuf message: GeoIpList.entry: buffer underflow");
}

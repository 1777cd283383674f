use dns_parser::{Packet, QueryClass, QueryType, RData};
use mdns_responder::fsm::{
    handle_command, handle_datagram, respond, unsolicited_records, Command, Question,
};
use mdns_responder::packet::build_response;
use mdns_responder::services::ServicesInner;
use mdns_responder::name::name_is_valid;
use mdns_responder::{build_txt_record, ensure_local_suffix, make_service_data, DEFAULT_TTL};

fn host() -> String {
    "test-host.local".to_string()
}

fn v4_addrs() -> Vec<[u8; 4]> {
    vec![[192, 168, 1, 5]]
}

fn v6_addrs() -> Vec<[u8; 16]> {
    vec![[0xfe, 0x80, 0, 0, 0, 0, 0, 0, 0, 0, 0, 0, 0, 0, 0, 1]]
}

#[test]
fn announce_packet_contents() {
    let entries = vec![b"path=/".to_vec()];
    let svc = make_service_data(&"_http._tcp".to_string(), &"My Web".to_string(), 8080, &entries);
    assert_eq!(svc.txt, vec![6, b'p', b'a', b't', b'h', b'=', b'/']);

    let records = unsolicited_records(&svc, DEFAULT_TTL, true, &host(), &v4_addrs(), &v6_addrs());
    let bytes = build_response(&records);
    let p = Packet::parse(&bytes).expect("announce packet must parse");

    assert_eq!(p.header.id, 0);
    assert!(p.header.authoritative);
    assert!(!p.header.query);
    assert_eq!(p.questions.len(), 0);
    assert_eq!(p.answers.len(), 5);
    for a in &p.answers {
        assert_eq!(a.ttl, 60);
    }

    assert_eq!(p.answers[0].name.to_string(), "_http._tcp.local");
    match &p.answers[0].data {
        RData::PTR(ptr) => assert_eq!(ptr.0.to_string(), "My Web._http._tcp.local"),
        other => panic!("expected PTR, got {:?}", other),
    }
    assert_eq!(p.answers[1].name.to_string(), "My Web._http._tcp.local");
    match &p.answers[1].data {
        RData::SRV(srv) => {
            assert_eq!(srv.priority, 0);
            assert_eq!(srv.weight, 0);
            assert_eq!(srv.port, 8080);
            assert_eq!(srv.target.to_string(), "test-host.local");
        },
        other => panic!("expected SRV, got {:?}", other),
    }
    match &p.answers[2].data {
        RData::TXT(txt) => {
            let chunks: Vec<&[u8]> = txt.iter().collect();
            assert_eq!(chunks, vec![b"path=/".as_ref()]);
        },
        other => panic!("expected TXT, got {:?}", other),
    }
    match &p.answers[3].data {
        RData::A(a) => assert_eq!(a.0.octets(), [192, 168, 1, 5]),
        other => panic!("expected A, got {:?}", other),
    }
    match &p.answers[4].data {
        RData::AAAA(a) => {
            assert_eq!(a.0.octets()[0], 0xfe);
            assert_eq!(a.0.octets()[15], 1);
        },
        other => panic!("expected AAAA, got {:?}", other),
    }
}

#[test]
fn goodbye_packet_has_ttl_zero_and_no_addresses() {
    let entries = vec![b"path=/".to_vec()];
    let svc = make_service_data(&"_http._tcp".to_string(), &"My Web".to_string(), 8080, &entries);

    let records = unsolicited_records(&svc, 0, false, &host(), &v4_addrs(), &v6_addrs());
    let bytes = build_response(&records);
    let p = Packet::parse(&bytes).expect("goodbye packet must parse");

    assert_eq!(p.answers.len(), 3);
    for a in &p.answers {
        assert_eq!(a.ttl, 0);
        match &a.data {
            RData::A(_) | RData::AAAA(_) => panic!("goodbye must carry no address records"),
            _ => (),
        }
    }
}

#[test]
fn goodbye_through_command_channel() {
    let entries: Vec<Vec<u8>> = vec![];
    let svc = make_service_data(&"_ssh._tcp".to_string(), &"Shell".to_string(), 22, &entries);
    let cmd = Command::SendUnsolicited { svc, ttl: 0, include_ip: false };
    let out = handle_command(&cmd, &host(), &v4_addrs(), &v6_addrs());
    let bytes = out.expect("an unsolicited command must produce a packet");
    let p = Packet::parse(&bytes).expect("command packet must parse");
    assert_eq!(p.answers.len(), 3);
    for a in &p.answers {
        assert_eq!(a.ttl, 0);
    }

    assert!(handle_command(&Command::Shutdown, &host(), &v4_addrs(), &v6_addrs()).is_none());
}

#[test]
fn meta_query_lists_types() {
    let mut reg = ServicesInner::new(host());
    let none: Vec<Vec<u8>> = vec![];
    reg.register(make_service_data(&"_http._tcp".to_string(), &"Web".to_string(), 8080, &none));
    reg.register(make_service_data(&"_ssh._tcp".to_string(), &"Shell".to_string(), 22, &none));

    let questions = vec![Question {
        qtype: 12,
        qname: "_services._dns-sd._udp.local".to_string(),
    }];
    let answers = respond(&reg, &questions, &v4_addrs(), &v6_addrs());
    assert_eq!(answers.len(), 2);

    let bytes = build_response(&answers);
    let p = Packet::parse(&bytes).expect("meta answer must parse");
    assert_eq!(p.answers.len(), 2);
    let mut targets = Vec::new();
    for a in &p.answers {
        assert_eq!(a.name.to_string(), "_services._dns-sd._udp.local");
        match &a.data {
            RData::PTR(ptr) => targets.push(ptr.0.to_string()),
            other => panic!("expected PTR, got {:?}", other),
        }
    }
    assert_eq!(targets, vec!["_http._tcp.local".to_string(), "_ssh._tcp.local".to_string()]);
}

#[test]
fn srv_query_for_instance() {
    let mut reg = ServicesInner::new(host());
    let none: Vec<Vec<u8>> = vec![];
    reg.register(make_service_data(&"_http._tcp".to_string(), &"My Web".to_string(), 8080, &none));

    let questions = vec![Question {
        qtype: 33,
        qname: "My Web._http._tcp.local".to_string(),
    }];
    let answers = respond(&reg, &questions, &v4_addrs(), &v6_addrs());
    let bytes = build_response(&answers);
    let p = Packet::parse(&bytes).expect("srv answer must parse");

    assert_eq!(p.answers.len(), 3);
    match &p.answers[0].data {
        RData::SRV(srv) => {
            assert_eq!(srv.priority, 0);
            assert_eq!(srv.weight, 0);
            assert_eq!(srv.port, 8080);
            assert_eq!(srv.target.to_string(), "test-host.local");
        },
        other => panic!("expected SRV, got {:?}", other),
    }
    let mut saw_a = false;
    let mut saw_aaaa = false;
    for a in &p.answers[1..] {
        assert_eq!(a.name.to_string(), "test-host.local");
        match &a.data {
            RData::A(_) => saw_a = true,
            RData::AAAA(_) => saw_aaaa = true,
            other => panic!("expected an address record, got {:?}", other),
        }
    }
    assert!(saw_a && saw_aaaa);
}

#[test]
fn empty_txt_is_single_zero_byte() {
    let none: Vec<Vec<u8>> = vec![];
    assert_eq!(build_txt_record(&none), vec![0]);
    let svc = make_service_data(&"_empty._tcp".to_string(), &"No TXT".to_string(), 7777, &none);
    assert_eq!(svc.txt, vec![0]);
}

#[test]
fn unrelated_query_is_ignored() {
    let mut reg = ServicesInner::new(host());
    let none: Vec<Vec<u8>> = vec![];
    reg.register(make_service_data(&"_http._tcp".to_string(), &"Web".to_string(), 8080, &none));

    let questions = vec![Question {
        qtype: 12,
        qname: "_unknown._tcp.local".to_string(),
    }];
    let answers = respond(&reg, &questions, &v4_addrs(), &v6_addrs());
    assert_eq!(answers.len(), 0);

    let mut bld = dns_parser::Builder::new_query(0, false);
    bld.add_question("_unknown._tcp.local", false, QueryType::PTR, QueryClass::IN);
    let query = bld.build().unwrap();
    assert!(handle_datagram(&reg, &query, &v4_addrs(), &v6_addrs()).is_none());
}

#[test]
fn unparseable_datagram_is_dropped() {
    let reg = ServicesInner::new(host());
    let garbage: Vec<u8> = vec![0xff, 0x13, 0x07];
    assert!(handle_datagram(&reg, &garbage, &v4_addrs(), &v6_addrs()).is_none());
}

#[test]
fn ptr_query_end_to_end() {
    let mut reg = ServicesInner::new(host());
    let entries = vec![b"path=/".to_vec()];
    reg.register(make_service_data(&"_http._tcp".to_string(), &"My Web".to_string(), 8080, &entries));

    let mut bld = dns_parser::Builder::new_query(0, false);
    bld.add_question("_http._tcp.local", false, QueryType::PTR, QueryClass::IN);
    let query = bld.build().unwrap();

    let out = handle_datagram(&reg, &query, &v4_addrs(), &v6_addrs());
    let bytes = out.expect("a matching PTR query must be answered");
    let p = Packet::parse(&bytes).expect("the answer must parse");
    assert_eq!(p.answers.len(), 5);
    assert_eq!(p.answers[0].name.to_string(), "_http._tcp.local");
    match &p.answers[0].data {
        RData::PTR(ptr) => assert_eq!(ptr.0.to_string(), "My Web._http._tcp.local"),
        other => panic!("expected PTR, got {:?}", other),
    }
}

#[test]
fn hostname_suffix_is_appended_once() {
    assert_eq!(ensure_local_suffix(&"myhost".to_string()).as_str(), "myhost.local");
    assert_eq!(ensure_local_suffix(&"myhost.local".to_string()).as_str(), "myhost.local");
}

#[test]
fn answer_builder_methods() {
    let entries = vec![b"a=1".to_vec()];
    let svc = make_service_data(&"_x._tcp".to_string(), &"N".to_string(), 9, &entries);
    let builder = Vec::new();
    let builder = svc.add_ptr_rr(builder, 60);
    let builder = svc.add_srv_rr(&host(), builder, 60);
    let builder = svc.add_txt_rr(builder, 60);
    assert_eq!(builder.len(), 3);
    let bytes = build_response(&builder);
    let p = Packet::parse(&bytes).expect("built answers must parse");
    assert_eq!(p.answers.len(), 3);
}

#[test]
fn name_validation() {
    assert!(name_is_valid("_http._tcp.local"));
    assert!(name_is_valid("My Web._http._tcp.local"));
    assert!(name_is_valid("localhost.local"));
    assert!(!name_is_valid(""));
    assert!(!name_is_valid(".local"));
    assert!(!name_is_valid("a..b"));
    assert!(!name_is_valid("trailing.dot."));
    let long_label = format!("{}.local", "x".repeat(64));
    assert!(!name_is_valid(&long_label));
    let max_label = format!("{}.local", "x".repeat(63));
    assert!(name_is_valid(&max_label));
    let too_long = "abcdefgh.".repeat(28) + "local";
    assert!(!name_is_valid(&too_long));
}

#[test]
fn response_header_bytes() {
    let none: Vec<Vec<u8>> = vec![];
    let svc = make_service_data(&"_x._tcp".to_string(), &"N".to_string(), 9, &none);
    let records = unsolicited_records(&svc, 0, false, &host(), &v4_addrs(), &v6_addrs());
    let bytes = build_response(&records);
    assert_eq!(&bytes[..12], &[0, 0, 0x84, 0, 0, 0, 0, 3, 0, 0, 0, 0]);
}

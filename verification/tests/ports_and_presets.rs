use portproc::errors::Errors;
use portproc::port::{Port, Protocol};
use portproc::presets::preset;
use portproc::text::NumberFault;
use portproc::util::process_to_string;

fn tcp(port: u16) -> Port {
    Port { port, protocol: Protocol::Tcp }
}

fn udp(port: u16) -> Port {
    Port { port, protocol: Protocol::Udp }
}

#[test]
fn letter_and_number_give_the_port_in_either_case() {
    assert_eq!(Port::try_from("t0").unwrap(), tcp(0));
    assert_eq!(Port::try_from("T65535").unwrap(), tcp(65535));
    assert_eq!(Port::try_from("u19132").unwrap(), udp(19132));
    assert_eq!(Port::try_from("U7").unwrap(), udp(7));
}

#[test]
fn a_text_reads_as_its_lower_case_form() {
    for text in ["SSH", "Mc-Bedrock", "T8080", "VITE-BUILD", "H80", "x"] {
        let lower = text.to_ascii_lowercase();
        match (Port::try_from(text), Port::try_from(lower.as_str())) {
            (Ok(a), Ok(b)) => assert_eq!(a, b),
            (Err(Errors::UnknownProtocol(a)), Err(Errors::UnknownProtocol(b))) => assert_eq!(a, b),
            (a, b) => panic!("{text}: {a:?} differs from {b:?}"),
        }
    }
}

#[test]
fn number_follows_the_rules_of_u16() {
    assert_eq!(Port::try_from("t+80").unwrap(), tcp(80));
    assert_eq!(Port::try_from("t0080").unwrap(), tcp(80));
    assert!(matches!(Port::try_from("t65536"), Err(Errors::InvalidPort(_))));
    assert!(matches!(Port::try_from("t-80"), Err(Errors::InvalidPort(_))));
    assert!(matches!(Port::try_from("t"), Err(Errors::InvalidPort(_))));
    assert!(matches!(Port::try_from("t+"), Err(Errors::InvalidPort(_))));
    assert!(matches!(Port::try_from("t 80"), Err(Errors::InvalidPort(_))));
    assert!(matches!(Port::try_from("u8o"), Err(Errors::InvalidPort(_))));
}

#[test]
fn a_bad_number_reports_why() {
    assert!(matches!(Port::try_from("t99999999"), Err(Errors::InvalidPort(NumberFault::PosOverflow))));
    assert!(matches!(Port::try_from("U65536"), Err(Errors::InvalidPort(NumberFault::PosOverflow))));
    assert!(matches!(Port::try_from("t"), Err(Errors::InvalidPort(NumberFault::Empty))));
    assert!(matches!(Port::try_from("t+"), Err(Errors::InvalidPort(NumberFault::InvalidDigit))));
    assert!(matches!(Port::try_from("tx"), Err(Errors::InvalidPort(NumberFault::InvalidDigit))));
    assert!(matches!(Port::try_from("t-1"), Err(Errors::InvalidPort(NumberFault::InvalidDigit))));
}

#[test]
fn a_number_and_protocol_give_a_port_or_the_reason() {
    assert_eq!(Port::from_number(Protocol::Udp, Ok(53)).unwrap(), udp(53));
    assert!(matches!(
        Port::from_number(Protocol::Tcp, Err(NumberFault::Empty)),
        Err(Errors::InvalidPort(NumberFault::Empty))
    ));
}

#[test]
fn texts_with_the_same_lower_case_form_fail_alike() {
    for (a, b) in [("T99999", "t99999"), ("TX", "tx"), ("T", "t"), ("H80", "h80")] {
        match (Port::try_from(a), Port::try_from(b)) {
            (Err(Errors::InvalidPort(x)), Err(Errors::InvalidPort(y))) => assert_eq!(x, y),
            (Err(Errors::UnknownProtocol(x)), Err(Errors::UnknownProtocol(y))) => assert_eq!(x, y),
            (x, y) => panic!("{a}, {b}: {x:?} and {y:?}"),
        }
    }
}

#[test]
fn unknown_protocol_reports_the_lower_case_letter() {
    assert!(matches!(Port::try_from("X1"), Err(Errors::UnknownProtocol('x'))));
    assert!(matches!(Port::try_from("8080"), Err(Errors::UnknownProtocol('8'))));
    assert!(matches!(Port::try_from("épée"), Err(Errors::UnknownProtocol('é'))));
}

#[test]
fn every_preset_resolves_to_a_port() {
    let expected = [
        ("ssh", tcp(22)),
        ("ftp", tcp(21)),
        ("dns", tcp(53)),
        ("postgresql", tcp(5432)),
        ("vite-dev", tcp(5173)),
        ("vite-preview", tcp(4173)),
        ("vite-build", tcp(4173)),
        ("mc-java", tcp(25565)),
        ("mc-bedrock", udp(19132)),
        ("rdp", tcp(3389)),
        ("mysql", tcp(3306)),
        ("ms-sql", tcp(1433)),
        ("mongodb", tcp(27017)),
        ("http", tcp(80)),
        ("https", tcp(443)),
        ("redis", tcp(6379)),
        ("smtp", tcp(25)),
        ("smtps", tcp(465)),
        ("imap", tcp(143)),
        ("imaps", tcp(993)),
        ("pop3", tcp(110)),
        ("pop3s", tcp(995)),
        ("telnet", tcp(23)),
        ("memcached", tcp(11211)),
        ("elasticsearch", tcp(9200)),
        ("rabbitmq", tcp(5672)),
        ("k8s-api", tcp(6443)),
        ("next-dev", tcp(3000)),
        ("cra-dev", tcp(3000)),
        ("create-react-app-dev", tcp(3000)),
    ];
    for (name, port) in expected {
        assert_eq!(Port::try_from(name).unwrap(), port, "{name}");
    }
}

#[test]
fn alias_chains_resolve_through_every_step() {
    assert_eq!(preset("create-react-app-dev").unwrap(), "cra-dev");
    assert_eq!(preset("cra-dev").unwrap(), "next-dev");
    assert_eq!(preset("next-dev").unwrap(), "T3000");
    assert_eq!(Port::try_from("Create-React-App-Dev").unwrap(), tcp(3000));
}

#[test]
fn preset_lookup_is_exact() {
    assert!(matches!(preset("SSH"), Err(Errors::InvalidPreset(name)) if name == "SSH"));
    assert!(matches!(preset(""), Err(Errors::InvalidPreset(name)) if name.is_empty()));
    assert_eq!(preset("k8s-api").unwrap(), "T6443");
}

#[test]
fn port_text_shows_protocol_and_number() {
    assert_eq!(udp(53).to_string(), "UDP 53");
    assert_eq!(tcp(0).to_string(), "TCP 0");
    assert_eq!(tcp(65535).to_string(), "TCP 65535");
}

#[test]
fn process_is_shown_with_quoted_name_and_id() {
    assert_eq!(process_to_string("server", 42), "\"server\" (PID 42)");
    assert_eq!(process_to_string("", 4194304), "\"\" (PID 4194304)");
    assert_eq!(process_to_string("my app", 0), "\"my app\" (PID 0)");
}

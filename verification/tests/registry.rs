use mdns_responder::services::{ServiceData, ServicesInner};

fn create_test_service(name: &str, typ: &str, port: u16) -> ServiceData {
    ServiceData {
        name: format!("{}.{}.local", name, typ),
        typ: format!("{}.local", typ),
        port,
        txt: vec![0],
    }
}

#[test]
fn test_services_inner_new() {
    let services = ServicesInner::new("test-host.local".to_string());
    assert_eq!(services.get_hostname().as_str(), "test-host.local");
    assert_eq!(services.len(), 0);
    assert!(services.find_by_name(&"test-host.local".to_string()).is_none());
}

#[test]
fn test_register_service() {
    let mut services = ServicesInner::new("test-host.local".to_string());
    let svc = create_test_service("myservice", "_http._tcp", 8080);

    let id = services.register(svc.clone());

    assert!(services.contains_id(id));
    assert_eq!(services.len(), 1);
    assert!(services.find_by_name(&svc.name).is_some());
    assert_eq!(services.find_by_name(&svc.name).unwrap().port, 8080);
}

#[test]
fn test_unregister_service() {
    let mut services = ServicesInner::new("test-host.local".to_string());
    let svc = create_test_service("myservice", "_http._tcp", 8080);

    let id = services.register(svc.clone());
    assert_eq!(services.len(), 1);

    let unregistered = services.unregister(id);
    assert_eq!(unregistered.name, svc.name);
    assert_eq!(unregistered.port, svc.port);
    assert_eq!(services.len(), 0);
    assert!(services.find_by_name(&svc.name).is_none());
}

#[test]
#[should_panic]
fn test_unregister_unknown_service() {
    let mut services = ServicesInner::new("test-host.local".to_string());
    services.unregister(12345);
}

#[test]
fn test_find_by_name() {
    let mut services = ServicesInner::new("test-host.local".to_string());
    let svc1 = create_test_service("service1", "_http._tcp", 8080);
    let svc2 = create_test_service("service2", "_http._tcp", 8081);

    services.register(svc1.clone());
    services.register(svc2.clone());

    let found = services.find_by_name(&svc1.name);
    assert!(found.is_some());
    assert_eq!(found.unwrap().port, 8080);

    let unknown_name = "unknown.local".to_string();
    let not_found = services.find_by_name(&unknown_name);
    assert!(not_found.is_none());
}

#[test]
fn test_find_by_type() {
    let mut services = ServicesInner::new("test-host.local".to_string());
    let http1 = create_test_service("web1", "_http._tcp", 8080);
    let http2 = create_test_service("web2", "_http._tcp", 8081);
    let ssh = create_test_service("ssh", "_ssh._tcp", 22);

    services.register(http1.clone());
    services.register(http2.clone());
    services.register(ssh.clone());

    let http_services: Vec<_> = services.find_by_type(&http1.typ).into_vec();
    assert_eq!(http_services.len(), 2);

    let ssh_services: Vec<_> = services.find_by_type(&ssh.typ).into_vec();
    assert_eq!(ssh_services.len(), 1);
    assert_eq!(ssh_services[0].port, 22);

    let unknown_type = "_unknown._tcp.local".to_string();
    let unknown_services: Vec<_> = services.find_by_type(&unknown_type).into_vec();
    assert_eq!(unknown_services.len(), 0);
}

#[test]
fn test_multiple_services_same_type() {
    let mut services = ServicesInner::new("test-host.local".to_string());

    for i in 0..5 {
        let svc = create_test_service(&format!("service{}", i), "_http._tcp", 8080 + i);
        services.register(svc);
    }

    let http_type = "_http._tcp.local".to_string();
    let found: Vec<_> = services.find_by_type(&http_type).into_vec();
    assert_eq!(found.len(), 5);
}

#[test]
fn test_service_data_clone() {
    let svc = create_test_service("test", "_http._tcp", 8080);
    let cloned = svc.clone();

    assert_eq!(svc.name, cloned.name);
    assert_eq!(svc.typ, cloned.typ);
    assert_eq!(svc.port, cloned.port);
    assert_eq!(svc.txt, cloned.txt);
}

#[test]
fn test_register_unregister_round_trip() {
    let mut services = ServicesInner::new("test-host.local".to_string());
    let svc = create_test_service("transient", "_http._tcp", 9000);

    let id = services.register(svc.clone());
    let back = services.unregister(id);

    assert_eq!(back.name, svc.name);
    assert_eq!(back.typ, svc.typ);
    assert_eq!(back.port, svc.port);
    assert_eq!(back.txt, svc.txt);
    assert_eq!(services.len(), 0);
}

#[test]
fn test_find_by_type_iterator() {
    let mut services = ServicesInner::new("test-host.local".to_string());
    let svc = create_test_service("only", "_ipp._tcp", 631);
    services.register(svc.clone());

    let mut iter = services.find_by_type(&svc.typ);
    let first = iter.next();
    assert!(first.is_some());
    assert_eq!(first.unwrap().name, svc.name);
    assert!(iter.next().is_none());
}

#[test]
fn test_ids_are_distinct() {
    let mut services = ServicesInner::new("test-host.local".to_string());
    let a = services.register(create_test_service("a", "_http._tcp", 1));
    let b = services.register(create_test_service("b", "_http._tcp", 2));
    assert_ne!(a, b);
}

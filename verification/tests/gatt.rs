use gatt_server::gatt_server;
use gatt_server::layout::compile;
use gatt_server::parse::parse_schema;
use gatt_server::server::Server;
use gatt_server::GattError;
use gatt_server::IndexRange;

const SCENARIO: &[u8] = b"service s1 : S1 { \
    characteristic c1 : C1 { \
        descriptor d1 : D1 { attribute a1 : A1 { 3 }, attribute b1 : B1 { 2 } } \
    }, \
    attribute e1 : E1 { 1 } \
}";

fn scenario_server() -> Server {
    let mut cell = gatt_server(SCENARIO).expect("scenario compiles");
    cell.take().expect("first take yields the server")
}

#[test]
fn scenario_tables() {
    let nodes = parse_schema(SCENARIO).expect("scenario parses");
    let l = compile(&nodes).expect("scenario compiles");

    assert_eq!(l.attributes.len(), 3);
    assert_eq!((l.attributes[0].offset, l.attributes[0].size), (0, 3));
    assert_eq!((l.attributes[1].offset, l.attributes[1].size), (3, 2));
    assert_eq!((l.attributes[2].offset, l.attributes[2].size), (5, 1));

    assert_eq!(l.descriptors.len(), 1);
    assert_eq!(l.descriptors[0].attributes, IndexRange { start: 0, end: 2 });

    assert_eq!(l.characteristics.len(), 1);
    // the characteristic owns no attribute of its own: an empty range placed
    // after the two attributes its descriptor consumed
    assert_eq!(
        l.characteristics[0].attributes,
        IndexRange { start: 2, end: 2 }
    );
    assert_eq!(
        l.characteristics[0].descriptors,
        IndexRange { start: 0, end: 1 }
    );

    assert_eq!(l.services.len(), 1);
    assert_eq!(l.services[0].attributes, IndexRange { start: 2, end: 3 });
    assert_eq!(
        l.services[0].characteristics,
        IndexRange { start: 0, end: 1 }
    );

    assert_eq!(l.store_size, 6);
}

#[test]
fn layout_deterministic() {
    let n1 = parse_schema(SCENARIO).unwrap();
    let n2 = parse_schema(SCENARIO).unwrap();
    assert_eq!(n1, n2);
    let l1 = compile(&n1).unwrap();
    let l2 = compile(&n2).unwrap();
    assert_eq!(l1, l2);
}

#[test]
fn round_trip_set_get() {
    let mut server = scenario_server();
    let svc = server.service(b"s1").unwrap();
    let chr = svc.characteristic(&server, b"c1").unwrap();
    let dsc = chr.descriptor(&server, b"d1").unwrap();
    let a1 = dsc.attribute(&server, b"a1").unwrap();
    assert_eq!(a1.size(&server), 3);

    a1.set(&mut server, &[7, 8, 9]).unwrap();
    assert_eq!(a1.get(&server), vec![7, 8, 9]);

    let b1 = dsc.attribute(&server, b"b1").unwrap();
    a1.set(&mut server, &[1, 2, 3]).unwrap();
    b1.set(&mut server, &[4, 5]).unwrap();
    assert_eq!(a1.get(&server), vec![1, 2, 3]);
    assert_eq!(b1.get(&server), vec![4, 5]);
}

#[test]
fn size_mismatch_rejected() {
    let mut server = scenario_server();
    let svc = server.service(b"s1").unwrap();
    let e1 = svc.attribute(&server, b"e1").unwrap();
    e1.set(&mut server, &[42]).unwrap();

    assert_eq!(e1.set(&mut server, &[1, 2]), Err(GattError::SizeMismatch));
    assert_eq!(e1.set(&mut server, &[]), Err(GattError::SizeMismatch));
    assert_eq!(e1.get(&server), vec![42]);
}

#[test]
fn single_checkout() {
    let mut cell = gatt_server(SCENARIO).unwrap();
    assert!(cell.take().is_some());
    assert!(cell.take().is_none());
    assert!(cell.take().is_none());
}

#[test]
fn initial_bytes_are_zero() {
    let server = scenario_server();
    let svc = server.service(b"s1").unwrap();
    let chr = svc.characteristic(&server, b"c1").unwrap();
    let dsc = chr.descriptor(&server, b"d1").unwrap();
    let a1 = dsc.attribute(&server, b"a1").unwrap();
    assert_eq!(a1.get(&server), vec![0, 0, 0]);
}

#[test]
fn empty_schema() {
    let mut cell = gatt_server(b"").unwrap();
    let server = cell.take().unwrap();
    assert_eq!(server.service_count(), 0);
    assert!(server.service_at(0).is_none());
}

#[test]
fn navigation_by_position() {
    let server = scenario_server();
    let svc = server.service_at(0).unwrap();
    let chr = svc.characteristic_at(&server, 0).unwrap();
    let dsc = chr.descriptor_at(&server, 0).unwrap();
    assert!(dsc.attribute_at(&server, 0).is_some());
    assert!(dsc.attribute_at(&server, 1).is_some());
    assert!(dsc.attribute_at(&server, 2).is_none());
    assert!(svc.attribute_at(&server, 0).is_some());
    assert!(svc.attribute_at(&server, 1).is_none());
    assert!(chr.attribute_at(&server, 0).is_none());
    assert!(svc.characteristic_at(&server, 1).is_none());
}

#[test]
fn derived_snake_case_accessor() {
    let mut cell =
        gatt_server(b"service : BatteryService { attribute : BatteryLevel { 1 } }").unwrap();
    let server = cell.take().unwrap();
    let svc = server.service(b"battery_service").expect("derived name");
    assert!(server.service(b"BatteryService").is_none());
    assert!(svc.attribute(&server, b"battery_level").is_some());
    assert!(svc.attribute(&server, b"BatteryLevel").is_none());
}

#[test]
fn path_type_ref_uses_last_segment() {
    let mut cell = gatt_server(b"service : bt::gatt::DeviceInfo { attribute : x::Name { 4 } }")
        .unwrap();
    let server = cell.take().unwrap();
    let svc = server.service(b"device_info").expect("last path segment");
    assert!(svc.attribute(&server, b"name").is_some());
}

#[test]
fn duplicate_type_dedup() {
    let nodes = parse_schema(
        b"service : S { attribute : A1 { 1 }, attribute : B1 { 1 }, attribute : A1 { 1 } }",
    )
    .unwrap();
    let l = compile(&nodes).unwrap();
    assert_eq!(l.attributes.len(), 3);
    let uniq = l.attribute_type_refs();
    assert_eq!(uniq, vec![b"A1".to_vec(), b"B1".to_vec()]);
}

#[test]
fn same_type_siblings_are_independent() {
    let mut cell = gatt_server(
        b"service : S { \
            characteristic left : Button { attribute v : State { 1 } }, \
            characteristic right : Button { attribute v : State { 1 } } \
        }",
    )
    .unwrap();
    let mut server = cell.take().unwrap();
    let svc = server.service(b"s").unwrap();
    let left = svc.characteristic(&server, b"left").unwrap();
    let right = svc.characteristic(&server, b"right").unwrap();
    assert_ne!(left.index, right.index);
    let lv = left.attribute(&server, b"v").unwrap();
    let rv = right.attribute(&server, b"v").unwrap();
    lv.set(&mut server, &[1]).unwrap();
    rv.set(&mut server, &[2]).unwrap();
    assert_eq!(lv.get(&server), vec![1]);
    assert_eq!(rv.get(&server), vec![2]);
}

#[test]
fn invalid_nesting_rejected() {
    // a descriptor directly under a service
    assert_eq!(
        gatt_server(b"service : S { descriptor : D { attribute : A { 1 } } }").err(),
        Some(GattError::InvalidNesting)
    );
    // a characteristic directly under a descriptor
    assert_eq!(
        gatt_server(
            b"service : S { characteristic : C { descriptor : D { \
              characteristic : X { } } } }"
        )
        .err(),
        Some(GattError::InvalidNesting)
    );
    // a non-service at the top level
    assert_eq!(
        gatt_server(b"attribute : A { 1 }").err(),
        Some(GattError::InvalidNesting)
    );
    // a service nested under a service
    assert_eq!(
        gatt_server(b"service : S { service : T { } }").err(),
        Some(GattError::InvalidNesting)
    );
}

#[test]
fn invalid_size_rejected() {
    // one attribute larger than the offset width allows
    assert_eq!(
        gatt_server(b"service : S { attribute : A { 4294967296 } }").err(),
        Some(GattError::InvalidSize)
    );
    // a size literal past the size width entirely
    assert_eq!(
        gatt_server(b"service : S { attribute : A { 99999999999999999999999 } }").err(),
        Some(GattError::InvalidSize)
    );
    // two attributes whose sizes together overflow the store
    assert_eq!(
        gatt_server(
            b"service : S { attribute : A { 4294967295 }, attribute : B { 1 } }"
        )
        .err(),
        Some(GattError::InvalidSize)
    );
}

#[test]
fn syntax_errors_rejected() {
    // unknown kind keyword
    assert_eq!(
        gatt_server(b"gadget : S { }").err(),
        Some(GattError::SyntaxError)
    );
    // missing ':' separator
    assert_eq!(
        gatt_server(b"service S { }").err(),
        Some(GattError::SyntaxError)
    );
    // missing type reference
    assert_eq!(gatt_server(b"service :").err(), Some(GattError::SyntaxError));
    // a path with a dangling separator
    assert_eq!(
        gatt_server(b"service : a:: { }").err(),
        Some(GattError::SyntaxError)
    );
    // an attribute body must be a size literal, not nested declarations
    assert_eq!(
        gatt_server(b"service : S { attribute : A { attribute : B { 1 } } }").err(),
        Some(GattError::SyntaxError)
    );
    // an unclosed brace
    assert_eq!(
        gatt_server(b"service : S { attribute : A { 1 }").err(),
        Some(GattError::SyntaxError)
    );
    // trailing garbage after the declaration list
    assert_eq!(
        gatt_server(b"service : S { } !").err(),
        Some(GattError::SyntaxError)
    );
}

#[test]
fn whitespace_and_trailing_comma() {
    let mut cell = gatt_server(
        b"\n service \t s : S {\n   attribute  a : A { 2 } ,\n } ,\n",
    )
    .unwrap();
    let mut server = cell.take().unwrap();
    let svc = server.service(b"s").unwrap();
    let a = svc.attribute(&server, b"a").unwrap();
    a.set(&mut server, &[10, 20]).unwrap();
    assert_eq!(a.get(&server), vec![10, 20]);
}

#[test]
fn declaration_order_is_kept() {
    let nodes = parse_schema(
        b"service one : S { }, service two : T { attribute : A { 1 } }, service three : U { }",
    )
    .unwrap();
    let l = compile(&nodes).unwrap();
    assert_eq!(l.services.len(), 3);
    assert_eq!(l.services[0].accessor, b"one".to_vec());
    assert_eq!(l.services[1].accessor, b"two".to_vec());
    assert_eq!(l.services[2].accessor, b"three".to_vec());
    // each service's characteristic range starts where the previous ended
    assert_eq!(l.services[0].characteristics, IndexRange { start: 0, end: 0 });
    assert_eq!(l.services[1].characteristics, IndexRange { start: 0, end: 0 });
    assert_eq!(l.services[2].characteristics, IndexRange { start: 0, end: 0 });
    assert_eq!(l.services[1].attributes, IndexRange { start: 0, end: 1 });
}

#[test]
fn zero_sized_attribute() {
    let mut cell = gatt_server(b"service : S { attribute z : Z { 0 } }").unwrap();
    let mut server = cell.take().unwrap();
    let svc = server.service(b"s").unwrap();
    let z = svc.attribute(&server, b"z").unwrap();
    assert_eq!(z.size(&server), 0);
    z.set(&mut server, &[]).unwrap();
    assert_eq!(z.get(&server), Vec::<u8>::new());
    assert_eq!(z.set(&mut server, &[1]), Err(GattError::SizeMismatch));
}

#[test]
fn name_lookup_returns_first_match() {
    let mut cell = gatt_server(
        b"service dev : A { attribute v : X { 1 } }, service dev : B { attribute v : X { 2 } }",
    )
    .unwrap();
    let server = cell.take().unwrap();
    let svc = server.service(b"dev").unwrap();
    assert_eq!(svc.index, 0);
    let v = svc.attribute(&server, b"v").unwrap();
    assert_eq!(v.size(&server), 1);
}

#[test]
fn name_lookup_is_scoped_to_the_parent() {
    let mut cell = gatt_server(
        b"service one : A { characteristic only_here : C { } }, service two : B { }",
    )
    .unwrap();
    let server = cell.take().unwrap();
    let one = server.service(b"one").unwrap();
    let two = server.service(b"two").unwrap();
    assert!(one.characteristic(&server, b"only_here").is_some());
    assert!(two.characteristic(&server, b"only_here").is_none());
}

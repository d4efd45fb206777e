use tg::nw::pack::{Package, HEAD_SIZE};

#[test]
fn package_method() {
    let data = "Hello world";

    let mut p1 = Package::new();
    p1.set_package_id(1);
    p1.set_idempotent(2);
    p1.set_data(data.as_bytes());
    p1.check();

    assert_eq!(1, p1.package_id());
    assert_eq!(2, p1.idempotent());
    assert_eq!(HEAD_SIZE + data.len(), p1.raw_len());
    assert_eq!(std::str::from_utf8(p1.data()).unwrap(), data);

    let mut buf = bytes::BytesMut::new();
    p1.to_bytes(&mut buf);

    assert_eq!(p1.head_code(), p1.raw()[0] ^ p1.raw()[9]);
    assert_eq!(p1.raw_code(), p1.raw()[0] ^ p1.raw()[HEAD_SIZE + 10]);

    let mut p2 = Package::new();
    p2.from_bytes(&buf).unwrap();

    assert_eq!(p2.package_id(), p1.package_id());
    assert_eq!(p2.idempotent(), p1.idempotent());
    assert_eq!(p2.raw_len(), p1.raw_len());
    assert_eq!(std::str::from_utf8(p1.data()).unwrap(), std::str::from_utf8(p2.data()).unwrap());
}

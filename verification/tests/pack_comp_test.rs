use tg::nw::pack_comp::{Head, Package, MIN_SIZE};
use tg::utils;

#[test]
fn test_head() {
    // --------------------------------------
    let mut h1 = Head::new();

    assert_eq!(h1.size(), MIN_SIZE);
    assert_eq!(h1.flag_pid(), 1);

    h1.set_pid(0x10);
    assert_eq!(h1.size(), 3);
    assert_eq!(h1.flag_pid(), 1);

    h1.set_pid(0x100);
    assert_eq!(h1.size(), 4);
    assert_eq!(h1.flag_pid(), 2);

    h1.set_pid(0x10);
    assert_eq!(h1.size(), 3);
    assert_eq!(h1.flag_pid(), 1);

    // --------------------------------------
    let mut h2 = Head::new();
    assert_eq!(h2.flag_idempotent(), 1);

    h2.set_idempotent(0x100);
    assert_eq!(h2.size(), 4);
    assert_eq!(h2.flag_idempotent(), 2);

    h2.set_idempotent(0x10000);
    assert_eq!(h2.size(), 6);
    assert_eq!(h2.flag_idempotent(), 4);

    h2.set_idempotent(0x100);
    assert_eq!(h2.size(), 4);
    assert_eq!(h2.flag_idempotent(), 2);

    h2.set_idempotent(0x10);
    assert_eq!(h2.size(), 3);
    assert_eq!(h2.flag_idempotent(), 1);

    // --------------------------------------
    let mut h3 = Head::new();
    assert_eq!(h3.flag_router_id(), 0);

    h3.set_router_id(0x10);
    assert_eq!(h3.size(), 4);
    assert_eq!(h3.flag_router_id(), 1);

    h3.set_router_id(0x100);
    assert_eq!(h3.size(), 5);
    assert_eq!(h3.flag_router_id(), 2);

    h3.set_router_id(0x10000);
    assert_eq!(h3.size(), 7);
    assert_eq!(h3.flag_router_id(), 4);

    h3.set_router_id(0x100000000);
    assert_eq!(h3.size(), 11);
    assert_eq!(h3.flag_router_id(), 8);

    h3.set_router_id(0x10000);
    assert_eq!(h3.size(), 7);
    assert_eq!(h3.flag_router_id(), 4);

    h3.set_router_id(0x100);
    assert_eq!(h3.size(), 5);
    assert_eq!(h3.flag_router_id(), 2);

    h3.set_router_id(0x10);
    assert_eq!(h3.size(), 4);
    assert_eq!(h3.flag_router_id(), 1);

    h3.set_router_id(0);
    assert_eq!(h3.size(), 3);
    assert_eq!(h3.flag_router_id(), 0);

    // --------------------------------------
    let mut h4 = Head::new();
    assert_eq!(h4.flag_data_len(), 0);

    h4.set_data_len(0x10);
    assert_eq!(h4.size(), 4);
    assert_eq!(h4.flag_data_len(), 1);

    h4.set_data_len(0x100);
    assert_eq!(h4.size(), 5);
    assert_eq!(h4.flag_data_len(), 2);

    h4.set_data_len(0x10000);
    assert_eq!(h4.size(), 7);
    assert_eq!(h4.flag_data_len(), 4);

    h4.set_data_len(0x100);
    assert_eq!(h4.size(), 5);
    assert_eq!(h4.flag_data_len(), 2);

    h4.set_data_len(0x10);
    assert_eq!(h4.size(), 4);
    assert_eq!(h4.flag_data_len(), 1);

    h4.set_data_len(0);
    assert_eq!(h4.size(), 3);
    assert_eq!(h4.flag_data_len(), 0);

    // --------------------------------------
    let mut h5 = Head::new();
    h5.set_pid(0x10);
    h5.set_idempotent(0x100);
    h5.set_router_id(0x100000000);
    h5.set_data_len(0x10);

    assert_eq!(h5.size(), 13);

    let mut buf = vec![0u8; h5.size()];
    h5.to_bytes(&mut buf);

    let mut h6 = Head::new();
    if let Err(err) = h6.parse(&buf) {
        panic!("{:?}", err);
    }

    assert_eq!(h6.flag(), h5.flag());
    assert_eq!(h6.pid(), h5.pid());
    assert_eq!(h6.idempotent(), h5.idempotent());
    assert_eq!(h6.router_id(), h5.router_id());
    assert_eq!(h6.data_len(), h5.data_len());
    assert_eq!(h6.size(), h5.size());

    println!("{:?}", h6.size());
}

#[test]
fn test_pack() {
    let data = "hello world".as_bytes();

    let beg = utils::now_unix_mills();

    for _ in 0..1_000_000 {
        let mut in_pack = Package::new();
        let mut out_pack = Package::new();

        in_pack.set(0x100, 0x1000, 0, data);
        let buf = in_pack.to_bytes();
        assert_eq!(buf.len(), 17);

        let res = out_pack.parse(&buf).unwrap();
        assert!(res);

        assert_eq!(out_pack.pid(), in_pack.pid());
        assert_eq!(out_pack.idempotent(), in_pack.idempotent());
        assert_eq!(out_pack.router_id(), in_pack.router_id());
        assert_eq!(out_pack.data_len(), in_pack.data_len());

        assert_eq!(
            core::str::from_utf8(out_pack.data()).unwrap().to_string(),
            core::str::from_utf8(data).unwrap().to_string()
        );

        out_pack.clear();
    }

    println!("elapsed: {} ms", utils::now_unix_mills() - beg);
}

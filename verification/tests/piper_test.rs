use tg::g::Error;
use tg::nw::pack::Package;
use tg::piper::{Handlers, Piper};

fn request(package_id: u16) -> Package {
    Package::with_params(package_id, 1, b"req")
}

#[test]
fn piper_routes_by_package_id() {
    let mut h: Handlers<&'static str> = Handlers::new();
    h.regist(1, "login").unwrap();
    h.regist(2, "logout").unwrap();
    assert_eq!(*Piper.on_process(&h, &request(1)).unwrap(), "login");
    assert_eq!(*Piper.on_process(&h, &request(2)).unwrap(), "logout");
}

#[test]
fn piper_unknown_package_id() {
    let mut h: Handlers<u32> = Handlers::new();
    h.regist(1, 10).unwrap();
    assert!(matches!(Piper.on_process(&h, &request(3)), Err(Error::PiperPIDInvalid)));
}

#[test]
fn piper_regist_twice_is_refused() {
    let mut h: Handlers<u32> = Handlers::new();
    h.regist(5, 50).unwrap();
    assert!(matches!(h.regist(5, 51), Err(Error::PiperHandlerAreadyExists(5))));
    assert_eq!(h.get(5), Some(&50));
    assert_eq!(h.get(6), None);
}

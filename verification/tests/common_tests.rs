use raft::common::{Command, K, V};

#[test]
fn key_and_value_keep_their_bytes() {
    let k = K::from(b"hello".to_vec());
    let v = V::from(b"world".to_vec());
    assert_eq!(k.clone().as_vec(), b"hello".to_vec());
    assert_eq!(v.clone().as_vec(), b"world".to_vec());
    let kb: Vec<u8> = k.into();
    let vb: Vec<u8> = v.into();
    assert_eq!(kb, b"hello".to_vec());
    assert_eq!(vb, b"world".to_vec());
}

#[test]
fn commands_clone_to_equal_commands() {
    let put = Command::PUT(K::from(b"a".to_vec()), V::from(b"1".to_vec()));
    let get = Command::GET(K::from(b"a".to_vec()));
    let del = Command::DELETE(K::from(b"a".to_vec()));
    assert_eq!(put.clone(), put);
    assert_eq!(get.clone(), get);
    assert_eq!(del.clone(), del);
    assert_ne!(put, get);
}

#[test]
fn empty_key_round_trips() {
    let k = K::from(Vec::new());
    assert_eq!(k.as_vec(), Vec::<u8>::new());
}

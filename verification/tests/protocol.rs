use bytes::Bytes;
use spritebox::protocol::errno;
use spritebox::protocol::{Response, Sha256, ROOT_INO};
use spritebox::remote::client::{verified, ClientError};

#[test]
fn root_ino_is_one() {
    assert_eq!(ROOT_INO, 1);
}

#[test]
fn sha256_detects_corruption() {
    let data = Bytes::from_static(b"hello world");
    let hash = Sha256::of(&data);
    assert!(hash.verify(&data));
    let corrupted = Bytes::from_static(b"hello worle");
    assert!(!hash.verify(&corrupted));
}

#[test]
fn sha256_of_the_empty_string() {
    let hash = Sha256::of(b"");
    assert_eq!(hash.0[..4], [0xe3, 0xb0, 0xc4, 0x42]);
    assert_eq!(hash.0[28..], [0x78, 0x52, 0xb8, 0x55]);
}

#[test]
fn errno_constants_match_linux() {
    assert_eq!(errno::ENOENT, 2);
    assert_eq!(errno::EIO, 5);
    assert_eq!(errno::EROFS, 30);
    assert_eq!(errno::ENOSPC, 28);
}

#[test]
fn errno_constants_match_libc() {
    assert_eq!(errno::ENOENT, libc::ENOENT);
    assert_eq!(errno::EACCES, libc::EACCES);
    assert_eq!(errno::EEXIST, libc::EEXIST);
    assert_eq!(errno::ENOTDIR, libc::ENOTDIR);
    assert_eq!(errno::EISDIR, libc::EISDIR);
    assert_eq!(errno::EINVAL, libc::EINVAL);
    assert_eq!(errno::EBADF, libc::EBADF);
    assert_eq!(errno::ENOSYS, libc::ENOSYS);
    assert_eq!(errno::ENOTEMPTY, libc::ENOTEMPTY);
}

#[test]
fn bytes_carry_their_digest_and_generation() {
    match Response::bytes(Bytes::from_static(&[0u8, 1, 2, 3]), 42) {
        Response::Bytes { data, hash, generation } => {
            assert_eq!(&data[..], &[0u8, 1, 2, 3]);
            assert!(hash.verify(&data));
            assert_eq!(generation, 42);
        }
        other => panic!("unexpected: {other:?}"),
    }
}

#[test]
fn digests_are_compared_in_full() {
    let zero = Sha256([0; 32]);
    let mut last = [0u8; 32];
    last[31] = 1;
    assert!(zero.same(&Sha256([0; 32])));
    assert!(!zero.same(&Sha256(last)));
    assert!(Sha256::of(b"x").same(&Sha256::of(b"x")));
}

#[test]
fn content_is_served_only_intact() {
    let data = Bytes::from_static(b"x");
    assert_eq!(verified(true, data.clone(), 3), Ok((data.clone(), 3)));
    assert_eq!(verified(false, data, 3), Err(ClientError::Errno(errno::EIO)));
}

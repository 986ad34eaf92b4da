use flea::md5::hex;

#[test]
fn rfc_1321_vectors() {
    assert_eq!(hex(b""), "d41d8cd98f00b204e9800998ecf8427e");
    assert_eq!(hex(b"a"), "0cc175b9c0f1b6a831c399e269772661");
    assert_eq!(hex(b"abc"), "900150983cd24fb0d6963f7d28e17f72");
    assert_eq!(hex(b"message digest"), "f96b697d7cb7938d525a2f31aaf161d0");
}

#[test]
fn the_real_cache_filename_on_this_box() {
    let uri = "file:///home/gm/Videos/screen-recording-2020-01-02_03-04-05.mp4";
    assert_eq!(hex(uri.as_bytes()), "4b971187c53a6a6ff1925d1147d8dacf");
}

#[test]
fn a_length_that_straddles_the_padding_boundary() {
    assert_eq!(hex(&[b'x'; 55]), "04364420e25c512fd958a70738aa8f72");
    assert_eq!(hex(&[b'x'; 56]), "668a72d5ba17f08e62dabcafad6db14b");
    assert_eq!(hex(&[b'x'; 64]), "c1bb4f81d892b2d57947682aeb252456");
}

#[test]
fn the_remaining_rfc_1321_vectors() {
    assert_eq!(hex(b"abcdefghijklmnopqrstuvwxyz"), "c3fcd3d76192e4007dfb496cca67e13b");
    assert_eq!(
        hex(b"ABCDEFGHIJKLMNOPQRSTUVWXYZabcdefghijklmnopqrstuvwxyz0123456789"),
        "d174ab98d277d9f5a5611c2c9f419d9f"
    );
    assert_eq!(
        hex(b"12345678901234567890123456789012345678901234567890123456789012345678901234567890"),
        "57edf4a22be3c955ac49da2e2107b67a"
    );
}

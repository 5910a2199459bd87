use h4sh::Hashable;

/// DJB2 of `bytes`, computed in 128 bits and reduced to a machine word.
fn reference_digest(bytes: &[u8]) -> usize {
    let words: u128 = (usize::MAX as u128) + 1;
    let mut digest: u128 = 5381;
    for byte in bytes {
        digest = (digest * 33 + (*byte as u128)) % words;
    }
    digest as usize
}

#[test]
fn integer_digest_is_the_integer() {
    assert_eq!(0usize.hash(), 0);
    assert_eq!(1usize.hash(), 1);
    assert_eq!(5381usize.hash(), 5381);
    assert_eq!(usize::MAX.hash(), usize::MAX);
}

#[test]
fn empty_text_has_the_seed_as_digest() {
    assert_eq!(String::new().hash(), 5381);
}

#[test]
fn short_texts_have_their_djb2_digest() {
    assert_eq!(String::from("a").hash(), 177670);
    assert_eq!(String::from("ab").hash(), 5863208);
    assert_eq!(String::from("ba").hash(), 5863240);
}

#[test]
fn text_digest_goes_over_the_bytes_of_the_encoding() {
    assert_eq!(String::from("\u{e9}").hash(), 5866513);
    assert_eq!(String::from("\u{e9}").hash(), reference_digest(&[0xc3, 0xa9]));
}

#[test]
fn long_texts_wrap_round() {
    let text = "The quick brown fox jumps over the lazy dog";
    assert_eq!(String::from(text).hash(), reference_digest(text.as_bytes()));
    assert_eq!(String::from("hello world").hash(), reference_digest(b"hello world"));
    if usize::BITS == 64 {
        assert_eq!(String::from("hello").hash(), 210714636441);
        assert_eq!(String::from("hello world").hash(), 13876786532495509697);
        assert_eq!(String::from(text).hash(), 3950289020261251294);
    }
}

#[test]
fn text_digest_is_the_same_each_time() {
    let text = String::from("determinism");
    let copy = String::from("determinism");
    assert_eq!(text.hash(), text.hash());
    assert_eq!(text.hash(), copy.hash());
}

#[test]
fn same_key_compares_keys() {
    assert!(3usize.same_key(&3));
    assert!(!3usize.same_key(&4));
    assert!(String::from("a").same_key(&String::from("a")));
    assert!(!String::from("a").same_key(&String::from("b")));
    assert!(!String::from("a").same_key(&String::from("")));
}

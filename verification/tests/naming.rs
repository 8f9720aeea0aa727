use regex_codegen::artifact::{binary_path, program_paths, push_hex, source_path};

#[test]
fn hexadecimal_of_bytes() {
    let mut out = String::new();
    push_hex(&mut out, &[10, 20, 30]);
    assert_eq!(out, "0a141e");

    let mut out = String::from(">");
    push_hex(&mut out, &[0x00, 0x09, 0x0a, 0x0f, 0x10, 0x99, 0xa0, 0xff]);
    assert_eq!(out, ">00090a0f1099a0ff");

    let mut out = String::from("same");
    push_hex(&mut out, &[]);
    assert_eq!(out, "same");
}

#[test]
fn paths_of_a_digest() {
    assert_eq!(source_path(&[0xde, 0xad, 0xbe, 0xef]), "/tmp/deadbeef.rs");
    assert_eq!(binary_path(&[0xde, 0xad, 0xbe, 0xef]), "/tmp/deadbeef");
}

#[test]
fn paths_are_named_after_the_sha256_of_the_text() {
    let (source, binary) = program_paths("hello world");
    assert_eq!(
        source,
        "/tmp/b94d27b9934d3e08a52e52d7da7dabfac484efe37a5380ee9088f7ace2efcde9.rs"
    );
    assert_eq!(
        binary,
        "/tmp/b94d27b9934d3e08a52e52d7da7dabfac484efe37a5380ee9088f7ace2efcde9"
    );

    let (source, binary) = program_paths("");
    assert_eq!(
        source,
        "/tmp/e3b0c44298fc1c149afbf4c8996fb92427ae41e4649b934ca495991b7852b855.rs"
    );
    assert_eq!(
        binary,
        "/tmp/e3b0c44298fc1c149afbf4c8996fb92427ae41e4649b934ca495991b7852b855"
    );
}

#[test]
fn equal_texts_share_their_paths() {
    assert_eq!(program_paths("fn main() {}"), program_paths("fn main() {}"));
    assert_ne!(program_paths("fn main() {}"), program_paths("fn main() { }"));
}

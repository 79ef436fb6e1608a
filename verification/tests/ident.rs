use mote::ident::{from_extension, identify_bytes, identify_head, kind_from, kind_from_name, Format, Kind};

#[test]
fn magic_beats_a_lying_extension() {
    // A PNG signature in a file named `.txt` is still a PNG.
    let png = [0x89, b'P', b'N', b'G', 0x0D, 0x0A, 0x1A, 0x0A, 0, 0, 0, 0];
    let kind = identify_bytes(&png, "notes.txt");
    assert_eq!(kind, Kind::Magic { mime: "image/png".into() });
}

#[test]
fn extension_is_the_fallback_not_the_first_word() {
    let kind = identify_bytes(b"# hello\n", "README.md");
    assert_eq!(kind, Kind::Extension { mime: "text/markdown".into() });
}

#[test]
fn archives_are_only_trusted_from_magic() {
    let named = Kind::Extension { mime: "application/zip".into() };
    assert_eq!(named.archive(), None);

    let sniffed = Kind::Magic { mime: "application/zip".into() };
    assert_eq!(sniffed.archive(), Some(Format::Zip));
}

#[test]
fn tar_and_gzip_are_archives_too() {
    assert_eq!(Kind::Magic { mime: "application/x-tar".into() }.archive(), Some(Format::Tar));
    assert_eq!(Kind::Magic { mime: "application/gzip".into() }.archive(), Some(Format::TarGz));
    assert_eq!(Kind::Magic { mime: "image/png".into() }.archive(), None);
    assert_eq!(Kind::Unknown.archive(), None);
}

#[test]
fn unknown_is_octet_stream() {
    assert_eq!(Kind::Unknown.mime(), "application/octet-stream");
    assert_eq!(Kind::Extension { mime: "text/csv".into() }.mime(), "text/csv");
}

#[test]
fn extensions_map_to_text_types() {
    assert_eq!(from_extension("yml"), Some("application/yaml"));
    assert_eq!(from_extension("hpp"), Some("text/x-c++"));
    assert_eq!(from_extension("exe"), None);
    assert_eq!(from_extension("MD"), None);
}

#[test]
fn extensions_are_compared_in_lower_case() {
    assert_eq!(kind_from_name("NOTES.MD"), Kind::Extension { mime: "text/markdown".into() });
    assert_eq!(kind_from_name("Makefile"), Kind::Unknown);
    assert_eq!(kind_from_name("archive.tar.GZ"), Kind::Unknown);
}

#[test]
fn a_zip_signature_is_recognised() {
    let zip = [b'P', b'K', 3, 4, 20, 0, 0, 0, 0, 0, 0, 0, 0, 0, 0, 0];
    assert_eq!(identify_bytes(&zip, "x.jpg").archive(), Some(Format::Zip));
}

#[test]
fn an_empty_head_is_judged_by_name() {
    assert_eq!(identify_head(Some(b""), "a.rs"), Kind::Extension { mime: "text/x-rust".into() });
}

#[test]
fn an_unreadable_file_is_unknown() {
    assert_eq!(identify_head(None, "missing/notes.md"), Kind::Unknown);
}

#[test]
fn the_sniffed_type_decides_before_the_name() {
    assert_eq!(kind_from(Some("image/png"), "a.txt"), Kind::Magic { mime: "image/png".into() });
    assert_eq!(kind_from(None, "a.txt"), Kind::Extension { mime: "text/plain".into() });
    assert_eq!(kind_from(None, "a.bin"), Kind::Unknown);
}

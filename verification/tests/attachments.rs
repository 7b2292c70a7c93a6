use diffuse_daemon::attachments::AttachmentError;
use diffuse_daemon::paths::{extension, file_name};
use diffuse_daemon::commands::{collect_attachments, forced_kind, split_attach_command, Attachment};

type Content = Result<Vec<u8>, String>;

fn file(bytes: &[u8]) -> Content {
    Ok(bytes.to_vec())
}

/// What is said where the files cannot be collected.
fn said(
    r: Result<Vec<Attachment>, (usize, AttachmentError)>,
    paths: &[String],
) -> String {
    match r {
        Ok(_) => panic!("the files were taken"),
        Err((i, e)) => e.message(&paths[i]),
    }
}

#[test]
fn kind_is_taken_from_the_extension_for_universal_attachments() {
    let png = "/tmp/diffuse-att.png".to_string();
    let wav = "/tmp/diffuse-att.wav".to_string();
    let mp4 = "/tmp/diffuse-att.mp4".to_string();

    let contents: Vec<Content> = vec![file(b"\x89PNG fake"), file(b"RIFF fake"), file(b"ftyp fake")];
    let found =
        collect_attachments(&vec![], &vec![], &vec![], &vec![png, wav, mp4], &contents, false).expect("collect");
    let kinds: Vec<&str> = found.iter().map(|a| a.kind.as_str()).collect();
    assert_eq!(kinds, vec!["image", "audio", "video"]);
    assert_eq!(found[0].mime, "image/png");
    assert_eq!(found[1].mime, "audio/wav");
}

#[test]
fn an_explicit_flag_overrides_an_unhelpful_extension() {
    let odd = "/tmp/diffuse-att.bin".to_string();
    let found =
        collect_attachments(&vec![odd], &vec![], &vec![], &vec![], &vec![file(b"bytes")], false).expect("collect");
    assert_eq!(found[0].kind, "image");
    assert_eq!(found[0].mime, "application/octet-stream");
}

#[test]
fn an_unknown_extension_asks_which_kind_it_is() {
    let paths = vec!["/tmp/diffuse-att.xyz".to_string()];
    let err = said(
        collect_attachments(&vec![], &vec![], &vec![], &paths, &vec![file(b"bytes")], false),
        &paths,
    );
    assert!(err.contains("--image"), "the error must say how to disambiguate: {}", err);
}

#[test]
fn a_missing_or_empty_attachment_is_refused_before_the_network() {
    let missing = vec!["/tmp/diffuse-att-missing.png".to_string()];
    let gone: Vec<Content> = vec![Err("No such file or directory (os error 2)".to_string())];
    let err = said(collect_attachments(&missing, &vec![], &vec![], &vec![], &gone, false), &missing);
    assert!(err.contains("cannot read"), "{}", err);

    let empty = vec!["/tmp/diffuse-att-empty.png".to_string()];
    let err = said(
        collect_attachments(&empty, &vec![], &vec![], &vec![], &vec![file(b"")], false),
        &empty,
    );
    assert!(err.contains("empty"), "{}", err);
}

#[test]
fn attachments_keep_their_order_across_kinds() {
    let a = "/tmp/diffuse-order-a.png".to_string();
    let b = "/tmp/diffuse-order-b.wav".to_string();
    let found = collect_attachments(
        &vec![a],
        &vec![b],
        &vec![],
        &vec![],
        &vec![file(b"a"), file(b"b")],
        false,
    )
    .expect("collect");
    assert_eq!(found[0].label, "diffuse-order-a.png");
    assert_eq!(found[1].label, "diffuse-order-b.wav");
}

#[test]
fn the_first_file_that_is_refused_is_named() {
    let paths = vec!["a.png".to_string(), "b.xyz".to_string(), "c.zzz".to_string()];
    let contents = vec![file(b"1"), file(b"2"), file(b"3")];
    let (at, e) = collect_attachments(&vec![], &vec![], &vec![], &paths, &contents, false).unwrap_err();
    assert_eq!(at, 1);
    assert!(matches!(e, AttachmentError::UnknownKind));
}

#[test]
fn extensions_are_read_in_either_case() {
    for (name, kind, mime) in [
        ("a.PNG", "image", "image/png"),
        ("a.jpeg", "image", "image/jpeg"),
        ("a.JPG", "image", "image/jpeg"),
        ("a.tiff", "image", "image/tiff"),
        ("a.mp3", "audio", "audio/mpeg"),
        ("a.oga", "audio", "audio/ogg"),
        ("a.aac", "audio", "audio/aac"),
        ("a.mkv", "video", "video/x-matroska"),
        ("a.tar.avi", "video", "video/x-msvideo"),
        ("a", "", ""),
        (".png", "", ""),
        ("a.txt", "", ""),
    ] {
        assert_eq!(diffuse_daemon::attachments::kind_from_extension(name, false), (kind, mime), "{}", name);
    }
}

#[test]
fn a_command_with_a_path_attaches_it() {
    assert_eq!(split_attach_command("/attach  my file.png "), Some(("/attach", "my file.png".to_string())));
    assert_eq!(split_attach_command("/image"), Some(("/image", String::new())));
    assert_eq!(split_attach_command("/images x"), None);
    assert_eq!(split_attach_command("hello"), None);
    assert_eq!(forced_kind("/image"), Some("image"));
    assert_eq!(forced_kind("/audio"), Some("audio"));
    assert_eq!(forced_kind("/video"), Some("video"));
    assert_eq!(forced_kind("/attach"), None);
}

#[test]
fn a_name_is_found_at_the_end_of_a_path_of_either_family() {
    let named = |path: &str, windows: bool| file_name(path, windows);
    for (path, name) in [
        ("/tmp/cat.png", Some("cat.png")),
        ("cat.png", Some("cat.png")),
        ("pics/./", Some("pics")),
        ("pics/..", None),
        ("/", None),
        (".", None),
        ("", None),
        ("C:\\pics\\cat.png", Some("C:\\pics\\cat.png")),
    ] {
        assert_eq!(named(path, false), name.map(|n| n.to_string()), "{}", path);
    }
    for (path, name) in [
        ("C:\\pics\\cat.png", Some("cat.png")),
        ("C:/pics\\cat.png", Some("cat.png")),
        ("C:cat.png", Some("cat.png")),
        ("C:\\", None),
        ("C:", None),
        ("pics\\.\\", Some("pics")),
        ("pics\\..", None),
        ("\\\\server\\share\\cat.png", Some("cat.png")),
        ("\\\\server\\share", None),
        ("\\\\.\\COM1", None),
        ("\\\\?\\C:\\pics\\a/b.png", Some("a/b.png")),
        ("\\\\?\\UNC\\server\\share\\cat.png", Some("cat.png")),
        ("\\\\?\\C:\\.", None),
    ] {
        assert_eq!(named(path, true), name.map(|n| n.to_string()), "{}", path);
    }
    assert_eq!(extension("C:\\pics.d\\cat", true), "");
    assert_eq!(extension("C:\\pics\\cat.PNG", true), "PNG");
    let paths = vec!["C:\\pics\\cat.png".to_string()];
    let found =
        collect_attachments(&vec![], &vec![], &vec![], &paths, &vec![file(b"x")], true).unwrap();
    assert_eq!(found[0].label, "cat.png");
    assert_eq!(found[0].kind, "image");
}

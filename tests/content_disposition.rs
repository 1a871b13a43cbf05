use state_compressor::content_disposition::{
    content_disposition_type, make_content_disposition, make_content_type, sanitise_filename,
};

const PNG: [u8; 16] = [0x89, 0x50, 0x4E, 0x47, 0x0D, 0x0A, 0x1A, 0x0A, 0, 0, 0, 0x0D, 0x49, 0x48, 0x44, 0x52];

#[test]
fn string_sanitisation() {
    const SAMPLE: &str =
        "🏳️‍⚧️this\\r\\n įs \r\\n ä \\r\nstrïng 🥴that\n\r ../../../../../../../may be\r\n malicious🏳️‍⚧️";
    const SANITISED: &str = "🏳️‍⚧️thisrn įs n ä rstrïng 🥴that ..............may be malicious🏳️‍⚧️";

    let options = sanitize_filename::Options { windows: true, truncate: true, replacement: "" };

    println!("{SAMPLE}");
    println!("{}", sanitize_filename::sanitize_with_options(SAMPLE, options.clone()));
    println!("{SAMPLE:?}");
    println!("{:?}", sanitize_filename::sanitize_with_options(SAMPLE, options.clone()));

    assert_eq!(SANITISED, sanitize_filename::sanitize_with_options(SAMPLE, options.clone()));
}

#[test]
fn sanitise_removes_separators() {
    assert_eq!(sanitise_filename("a/b.png".to_string()), "ab.png");
}

#[test]
fn detected_png_is_inline() {
    assert_eq!(content_disposition_type(&PNG, &None), "inline");
    assert_eq!(content_disposition_type(b"plain words", &None), "attachment");
}

#[test]
fn content_type_follows_detection() {
    assert_eq!(make_content_type(&PNG, &Some("text/plain".to_string())), "image/png");
    assert_eq!(make_content_type(b"plain words", &Some("image/png".to_string())), "application/octet-stream");
    assert_eq!(make_content_type(&PNG, &None), "image/png");
}

#[test]
fn disposition_with_requested_name() {
    let r = make_content_disposition(&PNG, &None, None, Some("a/b.png".to_string()));
    assert_eq!(r, "inline; filename=ab.png");
}

#[test]
fn disposition_with_header_name() {
    let r = make_content_disposition(
        b"plain words",
        &None,
        Some("attachment; filename=report.txt".to_string()),
        None,
    );
    assert_eq!(r, "attachment; filename=report.txt");
    let r = make_content_disposition(b"plain words", &None, Some("attachment; filename=".to_string()), None);
    assert_eq!(r, "attachment");
    let r = make_content_disposition(b"plain words", &None, None, None);
    assert_eq!(r, "attachment");
}

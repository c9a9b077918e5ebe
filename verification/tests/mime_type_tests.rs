use mimeassoc::{MimeAssocError, MimeType};

#[test]
fn mime_type_mime_type_parse() -> Result<(), MimeAssocError> {
    assert!(MimeType::parse("foo/bar").is_ok());
    assert!(MimeType::parse("foobar").is_err());
    assert!(MimeType::parse("foo/bar/baz").is_err());

    let mime = MimeType::parse("foo/bar")?;
    assert_eq!(mime.major_type(), "foo");
    assert_eq!(mime.minor_type(), "bar");
    assert_eq!(mime.sub_type(), "bar");
    Ok(())
}

#[test]
fn mime_type_rejection_names_the_text() {
    assert_eq!(MimeType::parse("foobar"), Err(MimeAssocError::InvalidMimeType("foobar".to_string())));
}

#[test]
fn mime_type_components_work() -> Result<(), MimeAssocError> {
    let image_png = MimeType::parse("image/png")?;
    assert_eq!(image_png.major_type(), "image");
    assert_eq!(image_png.minor_type(), "png");
    assert!(!image_png.is_minor_type_wildcard());

    let image_star = MimeType::parse("image/*")?;
    assert_eq!(image_star.major_type(), "image");
    assert_eq!(image_star.minor_type(), "*");
    assert!(image_star.is_minor_type_wildcard());

    assert!(image_star.wildcard_match(&image_png));
    assert!(!image_png.wildcard_match(&image_star));

    let text_plain = MimeType::parse("text/plain")?;
    assert!(!image_star.wildcard_match(&text_plain));
    assert_eq!(image_png.to_string(), "image/png");
    assert_eq!(image_png.id(), "image/png");
    Ok(())
}

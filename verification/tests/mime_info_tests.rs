use mimeassoc::detail::mime_type_info_label;
use mimeassoc::filter::mime_type_matches_search;
use mimeassoc::mime_info::{MimeTypeInfoStore, XmlItem};
use mimeassoc::{MimeAssocError, MimeType};

const TINY_XML: &str = r#"<?xml version="1.0" encoding="UTF-8"?>
<mime-info xmlns="http://www.freedesktop.org/standards/shared-mime-info">
  <mime-type type="application/x-atari-7800-rom">
    <comment>Atari 7800 ROM</comment>
    <comment xml:lang="ko">아타리 7800 롬</comment>
    <generic-icon name="application-x-executable"/>
    <glob pattern="*.a78"/>
  </mime-type>
  <mime-type type="application/vnd.amazon.mobi8-ebook">
    <comment>Kindle book document</comment>
    <comment xml:lang="fr">document livre Kindle</comment>
    <alias type="application/x-mobi8-ebook"/>
    <glob pattern="*.azw3"/>
    <glob pattern="*.kfx"/>
  </mime-type>
</mime-info>
"#;

const MORE_XML: &str = r#"<?xml version="1.0" encoding="UTF-8"?>
<mime-info xmlns="http://www.freedesktop.org/standards/shared-mime-info">
  <mime-type type="text/plain">
    <comment>plain text document</comment>
    <comment xml:lang="de">Einfaches Textdokument</comment>
    <sub-class-of type="text/x-generic"/>
    <glob pattern="*.txt"/>
    <glob pattern="*.asc"/>
    <glob pattern="*,v"/>
  </mime-type>
  <mime-type type="application/gzip">
    <comment>Gzip archive</comment>
    <alias type="application/x-gzip"/>
    <glob pattern="*.gz"/>
  </mime-type>
</mime-info>
"#;

const CODE_WORKSPACE_XML: &str = r#"<?xml version="1.0" encoding="UTF-8"?>
<mime-info xmlns="http://www.freedesktop.org/standards/shared-mime-info">
  <mime-type type="application/x-code-workspace">
    <comment>Code Workspace</comment>
    <glob pattern="*.code-workspace"/>
  </mime-type>
</mime-info>
"#;

fn loads_and_contains_expected_data(sources: Vec<Vec<u8>>) -> Result<(), MimeAssocError> {
    let store = MimeTypeInfoStore::load(&sources)?;

    let atari_7800_mime_type = MimeType::parse("application/x-atari-7800-rom")?;
    let atari_7800_info = store
        .get_info_for_mime_type(&atari_7800_mime_type)
        .expect("Expect \"application/vnd.amazon.mobi8-ebook\" to be in the info store");

    assert_eq!(atari_7800_info.mime_type(), &atari_7800_mime_type);
    assert_eq!(atari_7800_info.comment(), Some("Atari 7800 ROM"));
    assert_eq!(atari_7800_info.comment_language("ko"), Some("아타리 7800 롬"));
    assert_eq!(atari_7800_info.generic_icon(), Some("application-x-executable"));

    let extensions = atari_7800_info.extensions();
    assert_eq!(extensions, ["a78"]);

    let mobi_mime_type = MimeType::parse("application/vnd.amazon.mobi8-ebook")?;
    let mobi_info = store
        .get_info_for_mime_type(&mobi_mime_type)
        .expect("Expect \"application/vnd.amazon.mobi8-ebook\" to be in the info store");

    assert_eq!(mobi_info.mime_type(), &mobi_mime_type);
    assert_eq!(mobi_info.comment(), Some("Kindle book document"));
    assert_eq!(mobi_info.comment_language("fr"), Some("document livre Kindle"));
    assert!(mobi_info.generic_icon().is_none());

    let extensions = mobi_info.extensions();
    assert!(extensions.iter().any(|e| e == "azw3"));
    assert!(extensions.iter().any(|e| e == "kfx"));

    let mobi_alias_mime_type = MimeType::parse("application/x-mobi8-ebook")?;
    let mobi_alias_info = store
        .get_info_for_mime_type(&mobi_alias_mime_type)
        .expect("Expect to look up resolved mime type for alias");

    assert_eq!(mobi_info, mobi_alias_info);
    Ok(())
}

#[test]
fn loads_tiny_freedesktop_org_xml() -> Result<(), MimeAssocError> {
    loads_and_contains_expected_data(vec![TINY_XML.as_bytes().to_vec()])
}

#[test]
fn loads_full_freedesktop_org_xml() -> Result<(), MimeAssocError> {
    let full = format!("{}{}", &TINY_XML[..TINY_XML.len() - "</mime-info>\n".len()], &MORE_XML[MORE_XML.find("  <mime-type").unwrap()..]);
    loads_and_contains_expected_data(vec![full.into_bytes()])
}

#[test]
fn merges_multiple_sources() -> Result<(), MimeAssocError> {
    let sources = vec![TINY_XML.as_bytes().to_vec(), CODE_WORKSPACE_XML.as_bytes().to_vec()];
    let store = MimeTypeInfoStore::load(&sources)?;

    let mobi_mime_type = MimeType::parse("application/vnd.amazon.mobi8-ebook")?;
    let code_workspace_mime_type = MimeType::parse("application/x-code-workspace")?;

    assert!(store.get_info_for_mime_type(&mobi_mime_type).is_some());
    assert!(store.get_info_for_mime_type(&code_workspace_mime_type).is_some());
    Ok(())
}

#[test]
fn extensions_take_the_first_dotted_piece() -> Result<(), MimeAssocError> {
    let store = MimeTypeInfoStore::load(&vec![MORE_XML.as_bytes().to_vec()])?;
    let text = store.get_info_for_mime_type(&MimeType::parse("text/plain")?).unwrap();
    assert_eq!(text.extensions(), ["txt", "asc"]);
    assert_eq!(text.comment_languages(), vec!["de"]);
    let gzip = store.get_info_for_mime_type(&MimeType::parse("application/x-gzip")?).unwrap();
    assert_eq!(gzip.mime_type().id(), "application/gzip");
    assert_eq!(gzip.aliases().iter().map(|m| m.id()).collect::<Vec<_>>(), vec!["application/x-gzip"]);
    assert!(store.get_info_for_mime_type(&MimeType::parse("image/png")?).is_none());
    Ok(())
}

#[test]
fn malformed_xml_is_refused() {
    let broken = b"<mime-info><mime-type type=\"a/b\"></mime-info>".to_vec();
    assert!(matches!(MimeTypeInfoStore::load(&vec![broken]), Err(MimeAssocError::XmlRead(_))));
}

#[test]
fn reader_items_drive_the_store() {
    let items = vec![
        XmlItem::Other,
        XmlItem::StartElement("mime-type".to_string(), vec![("type".to_string(), "a/b".to_string())]),
        XmlItem::StartElement("comment".to_string(), vec![]),
        XmlItem::Characters("  An A  ".to_string()),
        XmlItem::EndElement("comment".to_string()),
        XmlItem::StartElement("glob".to_string(), vec![("pattern".to_string(), "*.ab.c".to_string())]),
        XmlItem::EndElement("mime-type".to_string()),
        XmlItem::StartElement("mime-type".to_string(), vec![("type".to_string(), "not a mime type".to_string())]),
        XmlItem::EndElement("mime-type".to_string()),
        XmlItem::Error("stopped".to_string()),
        XmlItem::StartElement("mime-type".to_string(), vec![("type".to_string(), "c/d".to_string())]),
        XmlItem::EndElement("mime-type".to_string()),
    ];
    let mut store = MimeTypeInfoStore::new();
    let r = MimeTypeInfoStore::load_single_xml_into_store(&items, &mut store);
    assert_eq!(r, Err(MimeAssocError::XmlRead("stopped".to_string())));
    let info = store.get_info_for_mime_type(&MimeType::parse("a/b").unwrap()).unwrap();
    assert_eq!(info.comment(), Some("An A"));
    assert_eq!(info.extensions(), ["ab"]);
    assert!(store.get_info_for_mime_type(&MimeType::parse("c/d").unwrap()).is_none());
}

#[test]
fn search_matches_mime_type_ids_and_descriptions_ignoring_case() {
    let store = MimeTypeInfoStore::load(&vec![TINY_XML.as_bytes().to_vec()]).unwrap();
    let rom = MimeType::parse("application/x-atari-7800-rom").unwrap();
    let mobi = MimeType::parse("application/x-mobi8-ebook").unwrap();
    let png = MimeType::parse("image/png").unwrap();
    assert!(mime_type_matches_search(None, &png, &store));
    assert!(mime_type_matches_search(Some("ATARI"), &rom, &store));
    assert!(mime_type_matches_search(Some("7800 rom"), &rom, &store));
    assert!(!mime_type_matches_search(Some("kindle"), &rom, &store));
    // an alias finds the description of the mime type it stands for
    assert!(mime_type_matches_search(Some("Kindle Book"), &mobi, &store));
    assert!(mime_type_matches_search(Some("PNG"), &png, &store));
    assert!(!mime_type_matches_search(Some("jpeg"), &png, &store));
    assert!(mime_type_matches_search(Some(""), &png, &store));
}

#[test]
fn lookup_through_an_alias_finds_a_type_listing_it() {
    let store = MimeTypeInfoStore::load(&vec![TINY_XML.as_bytes().to_vec()]).unwrap();
    let alias = MimeType::parse("application/x-mobi8-ebook").unwrap();
    let info = store.get_info_for_mime_type(&alias).unwrap();
    assert_eq!(info.mime_type().id(), "application/vnd.amazon.mobi8-ebook");
    assert!(info.aliases().contains(&&alias));
}

#[test]
fn info_label_shows_description_and_extensions_upper_cased() {
    let bare = r#"<?xml version="1.0" encoding="UTF-8"?>
<mime-info xmlns="http://www.freedesktop.org/standards/shared-mime-info">
  <mime-type type="x-content/bare">
    <comment>No globs here</comment>
  </mime-type>
  <mime-type type="x-content/nameless">
    <glob pattern="*.nl"/>
  </mime-type>
</mime-info>
"#;
    let store = MimeTypeInfoStore::load(&vec![TINY_XML.as_bytes().to_vec(), bare.as_bytes().to_vec()]).unwrap();
    let label = |m: &str| mime_type_info_label(&store, &MimeType::parse(m).unwrap());
    assert_eq!(label("application/x-atari-7800-rom"), Some("Atari 7800 ROM: A78".to_string()));
    assert_eq!(label("application/x-mobi8-ebook"), Some("Kindle book document: AZW3, KFX".to_string()));
    assert_eq!(label("x-content/bare"), Some("No globs here".to_string()));
    assert_eq!(label("x-content/nameless"), Some(": NL".to_string()));
    assert_eq!(label("image/png"), None);
}

use base64::Engine;
use possess::images::{
    asset_type, candidate_name, images_folder_name, media_type, paste_data, paste_file_stem,
    paste_markdown, paste_note, paste_stem, sniff_image,
};

#[test]
fn sniffs_images_by_their_leading_bytes() {
    assert_eq!(sniff_image(b"\x89PNG\r\n\x1a\nrest"), Some(".png"));
    assert_eq!(sniff_image(b"\xff\xd8\xff\xe0"), Some(".jpg"));
    assert_eq!(sniff_image(b"GIF87a..."), Some(".gif"));
    assert_eq!(sniff_image(b"GIF89a..."), Some(".gif"));
    assert_eq!(sniff_image(b"BM...."), Some(".bmp"));
    assert_eq!(sniff_image(b"RIFF\x00\x00\x00\x00WEBPVP8 "), Some(".webp"));
    assert_eq!(sniff_image(b"\x00\x00\x00\x1cftypavifmif1miaf\x00\x00\x00\x00"), Some(".avif"));
}

#[test]
fn sniffs_svg_after_whitespace_or_a_declaration() {
    assert_eq!(sniff_image(b"  \n\t<svg xmlns='x'/>"), Some(".svg"));
    assert_eq!(sniff_image(b"<?xml version=\"1.0\"?>\n<svg/>"), Some(".svg"));
    assert_eq!(sniff_image(b"<?xml version=\"1.0\"?><html/>"), None);
}

#[test]
fn rejects_what_is_not_an_image() {
    assert_eq!(sniff_image(b""), None);
    assert_eq!(sniff_image(b"hello world"), None);
    assert_eq!(sniff_image(b"RIFF\x00\x00\x00\x00WAVE"), None);
    assert_eq!(sniff_image(b"\x0b<svg/>"), None);
}

#[test]
fn cleans_a_pasted_file_name() {
    assert_eq!(paste_stem(Some("My Photo (1).png"), "S"), "My-Photo-1");
    assert_eq!(paste_stem(Some("a/b/c d.jpeg"), "S"), "c-d");
    assert_eq!(paste_stem(Some("--.plan.--.png"), "S"), "plan");
    let long = format!("{}.png", "a".repeat(70));
    assert_eq!(paste_stem(Some(&long), "S"), "a".repeat(60));
}

#[test]
fn generic_or_missing_names_get_a_stamp() {
    assert_eq!(paste_stem(Some("image.png"), "20240101-120000"), "pasted-20240101-120000");
    assert_eq!(paste_stem(Some("Screenshot.png"), "S"), "pasted-S");
    assert_eq!(paste_stem(Some("UNTITLED.jpg"), "S"), "pasted-S");
    assert_eq!(paste_stem(Some(""), "S"), "pasted-S");
    assert_eq!(paste_stem(Some("...png"), "S"), "pasted-S");
    assert_eq!(paste_stem(None, "S"), "pasted-S");
}

#[test]
fn a_pasted_name_never_leaves_its_folder() {
    let stem = paste_stem(Some("../../etc/passwd"), "S");
    assert_eq!(stem, "passwd");
    assert!(!paste_stem(Some("..\\..\\x.png"), "S").contains('\\'));
}

#[test]
fn an_unusable_name_is_stamped_with_the_time() {
    let stem = paste_file_stem(None);
    assert!(stem.starts_with("pasted-"));
    assert!(stem.len() > "pasted-".len());
    let stamp = &stem["pasted-".len()..];
    assert!(stamp.len() >= 15);
    assert!(stamp.chars().all(|c| c.is_ascii_digit() || c == '-' || c == '+'));
    assert_eq!(paste_file_stem(Some("plan.png")), "plan");
}

#[test]
fn a_paste_needs_a_note() {
    assert_eq!(paste_note(Some(" /a/b.md/ ".to_string())).unwrap(), "a/b.md");
    let err = paste_note(Some("  ".to_string())).unwrap_err();
    assert_eq!(err.status, 400);
    assert_eq!(err.detail, "No note given — open a note before pasting");
    assert_eq!(paste_note(None).unwrap_err().status, 400);
}

#[test]
fn decodes_a_pasted_image() {
    let (bytes, suffix) = paste_data(Some("iVBORw0KGgo=".to_string())).unwrap();
    assert_eq!(bytes, b"\x89PNG\r\n\x1a\n".to_vec());
    assert_eq!(suffix, ".png");
    let (bytes, suffix) = paste_data(Some("data:image/png;base64,iVBORw0KGgo=".to_string())).unwrap();
    assert_eq!(bytes.len(), 8);
    assert_eq!(suffix, ".png");
}

#[test]
fn refuses_bad_pastes() {
    let err = paste_data(Some("!!!".to_string())).unwrap_err();
    assert_eq!((err.status, err.detail.as_str()), (400, "Image data was not valid base64"));
    let err = paste_data(None).unwrap_err();
    assert_eq!((err.status, err.detail.as_str()), (400, "Image data was empty"));
    let err = paste_data(Some("aGVsbG8=".to_string())).unwrap_err();
    assert_eq!((err.status, err.detail.as_str()), (415, "That doesn't look like an image"));
}

#[test]
fn refuses_an_image_over_the_limit() {
    let mut big = b"\x89PNG\r\n\x1a\n".to_vec();
    big.resize(25 * 1024 * 1024 + 1, 0);
    let encoded = base64::engine::general_purpose::STANDARD.encode(&big);
    let err = paste_data(Some(encoded)).unwrap_err();
    assert_eq!(err.status, 413);
    assert_eq!(err.detail, "Image is 25MB; the limit is 25MB");
}

#[test]
fn names_the_image_folder_and_candidates() {
    assert_eq!(images_folder_name("/v/notes/Plan.md"), "Plan_images");
    assert_eq!(images_folder_name("/v/.hidden"), ".hidden_images");
    assert_eq!(candidate_name("shot", ".png", None), "shot.png");
    assert_eq!(candidate_name("shot", ".png", Some(2)), "shot-2.png");
    assert_eq!(candidate_name("shot", ".png", Some(12)), "shot-12.png");
    assert_eq!(paste_markdown("Plan_images", "shot-2.png"), "Plan_images/shot-2.png");
}

#[test]
fn serves_only_images() {
    let t = asset_type("/v/pics/A.PNG", "pics/A.PNG").unwrap();
    assert_eq!(t.media_type, "image/png");
    assert!(!t.svg);
    let t = asset_type("/v/x.svg", "x.svg").unwrap();
    assert!(t.svg);
    assert_eq!(t.media_type, "image/svg+xml");
    let err = asset_type("/v/notes.md", "notes.md").unwrap_err();
    assert_eq!((err.status, err.detail.as_str()), (415, "Not an image: notes.md"));
    assert_eq!(asset_type("/v/noext", "noext").unwrap_err().status, 415);
}

#[test]
fn guesses_media_types() {
    assert_eq!(media_type("css/main.css"), "text/css");
    assert_eq!(media_type("index.html"), "text/html");
    assert_eq!(media_type("x.unknownext"), "application/octet-stream");
    assert_eq!(media_type("README"), "application/octet-stream");
}

#[test]
fn sniffed_suffixes_are_served() {
    let samples: [&[u8]; 8] = [
        b"\x89PNG\r\n\x1a\nrest",
        b"\xff\xd8\xff\xe0",
        b"GIF89a...",
        b"BM....",
        b"RIFF\0\0\0\0WEBPVP8 ",
        b"\0\0\0\x1cftypavif\0\0\0\0avifmif1",
        b"  <svg/>",
        b"hello",
    ];
    for d in samples {
        if let Some(x) = sniff_image(d) {
            assert!([".png", ".jpg", ".gif", ".bmp", ".webp", ".avif", ".svg"].contains(&x));
            let f = format!("a{x}");
            assert!(asset_type(&f, &f).is_ok());
        }
    }
    assert_eq!(sniff_image(b"hello"), None);
}

use possess::assets::{encode_segment, is_external, parse_image, percent_decode, resolve, url, InlineImage};

#[test]
fn leaves_external_urls_alone() {
    for src in [
        "https://example.com/a.png",
        "http://example.com/a.png",
        "data:image/png;base64,AAAA",
        "//cdn.example.com/a.png",
    ] {
        assert!(is_external(src), "{src} should be external");
        assert_eq!(url(src, Some("note.md")), src);
    }
}

#[test]
fn a_bare_filename_is_not_external() {
    assert!(!is_external("plan.png"));
    assert!(!is_external("images/plan.png"));
    assert!(!is_external("a-b.png"));
}

#[test]
fn resolves_beside_the_note() {
    assert_eq!(
        resolve("plan.png", Some("projects/ideas.md")).as_deref(),
        Some("projects/plan.png")
    );
    assert_eq!(
        resolve("shots/plan.png", Some("projects/ideas.md")).as_deref(),
        Some("projects/shots/plan.png")
    );
}

#[test]
fn a_leading_slash_means_the_vault_root() {
    assert_eq!(
        resolve("/plan.png", Some("projects/ideas.md")).as_deref(),
        Some("plan.png")
    );
}

#[test]
fn walks_up_and_refuses_to_leave_the_vault() {
    assert_eq!(
        resolve("../plan.png", Some("a/b/note.md")).as_deref(),
        Some("a/plan.png")
    );
    assert_eq!(resolve("../../../plan.png", Some("a/note.md")), None);
}

#[test]
fn strips_fragments_and_queries_and_decodes() {
    assert_eq!(resolve("plan.png#top", None).as_deref(), Some("plan.png"));
    assert_eq!(resolve("plan.png?v=2", None).as_deref(), Some("plan.png"));
    assert_eq!(resolve("my%20plan.png", None).as_deref(), Some("my plan.png"));
    // A bare '%' is a filename, not bad encoding.
    assert_eq!(resolve("100%.png", None).as_deref(), Some("100%.png"));
}

#[test]
fn encodes_each_segment_but_keeps_slashes() {
    assert_eq!(
        url("my shots/a b.png", Some("note.md")),
        "/api/asset/my%20shots/a%20b.png"
    );
    assert_eq!(url("c#1.png", Some("note.md")), "/api/asset/c");
}

#[test]
fn parses_inline_images() {
    assert_eq!(
        parse_image("![a cat](cat.png)"),
        Some(InlineImage { alt: "a cat".into(), src: "cat.png".into() })
    );
    assert_eq!(
        parse_image("text ![](x/y.png \"title\") more"),
        Some(InlineImage { alt: String::new(), src: "x/y.png".into() })
    );
    assert_eq!(
        parse_image("![a](<my file.png>)"),
        Some(InlineImage { alt: "a".into(), src: "my file.png".into() })
    );
    assert_eq!(parse_image("no image here"), None);
    assert_eq!(parse_image("[a link](x.md)"), None);
}

#[test]
fn decoding_undoes_encoding() {
    for s in ["a b%c/é", "100%", "plain", "", "#?+&"] {
        assert_eq!(percent_decode(&encode_segment(s)), s);
    }
}

#[test]
fn a_windows_path_is_not_a_url() {
    assert!(!is_external("C:\\notes\\plan.png"));
    assert!(!is_external("d:/notes/plan.png"));
    assert!(is_external("cd:/x"));
    assert!(is_external("mailto:me@example.org"));
}

#[test]
fn an_escape_needs_two_hex_digits() {
    assert_eq!(percent_decode("50%+1.png"), "50%+1.png");
    assert_eq!(percent_decode("50%-1.png"), "50%-1.png");
    assert_eq!(percent_decode("50%25.png"), "50%.png");
}

#[test]
fn encoded_segments_hold_only_safe_bytes() {
    for s in ["plain.png", "a b#c%d", "naïve ☃.png", "~x-_y."] {
        let e = encode_segment(s);
        let b = e.as_bytes();
        for (i, c) in b.iter().enumerate() {
            assert!(c.is_ascii_alphanumeric() || b"-_.~%".contains(c));
            if *c == b'%' {
                assert!(i + 2 < b.len());
                for h in [b[i + 1], b[i + 2]] {
                    assert!(h.is_ascii_digit() || (b'A'..=b'F').contains(&h));
                }
            }
        }
        assert_eq!(percent_decode(&e), s);
    }
}

#[test]
fn a_leading_slash_resolves_from_the_root() {
    for s in ["img/a.png", "a.png", "../a.png", "x/./y.png"] {
        let rooted = format!("/{s}");
        assert_eq!(resolve(&rooted, Some("deep/note/n.md")), resolve(s, None));
        assert_eq!(resolve(&rooted, None), resolve(s, None));
    }
}

#[test]
fn resolved_paths_are_normal() {
    for (src, note) in [("./a//b/../c.png", Some("n/m.md")), ("x/.//y.png", None), ("/a/./b.png", Some("q.md"))] {
        let p = resolve(src, note).unwrap();
        assert!(!p.starts_with('/'));
        assert!(p.split('/').all(|g| !g.is_empty() && g != "." && g != ".."));
    }
}

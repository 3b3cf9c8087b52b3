use possess::webroot::split_served;

#[test]
fn accepts_the_served_directories_and_index() {
    assert_eq!(split_served("index.html"), Some(("", "index.html")));
    assert_eq!(split_served("js/app.js"), Some(("js", "app.js")));
    assert_eq!(split_served("css/main.css"), Some(("css", "main.css")));
    assert_eq!(
        split_served("vendor/simplemde.min.js"),
        Some(("vendor", "simplemde.min.js"))
    );
    assert_eq!(split_served("next.html"), Some(("", "next.html")));
    assert_eq!(
        split_served("pkg/possess_ui_bg.wasm"),
        Some(("pkg", "possess_ui_bg.wasm"))
    );
}

#[test]
fn rejects_anything_outside_them() {
    // The project directory holds app.py, the config file and the default
    // vault; none of them are reachable by naming a served directory first.
    assert_eq!(split_served("app.py"), None);
    assert_eq!(split_served("possess-config.json"), None);
    assert_eq!(split_served("notes/private.md"), None);
    assert_eq!(split_served(""), None);
}

#[test]
fn a_traversal_is_left_for_the_path_resolver() {
    // split_served only picks the base; climbing out of it is caught by
    // resolve_in_vault, so these are accepted here and rejected there.
    assert_eq!(split_served("js/../app.py"), Some(("js", "../app.py")));
}

use possess::webroot::{asset_paths, bust_cache, span_path};

#[test]
fn tags_own_assets_with_their_version() {
    let html = r#"<link href="/css/a.css"><script src="/js/b.js"></script><img src="/vendor/x.js">"#;
    let spans = asset_paths(html);
    assert_eq!(spans.len(), 2);
    assert_eq!(span_path(html, spans[0]), "css/a.css");
    assert_eq!(span_path(html, spans[1]), "js/b.js");
    let busted = bust_cache(html, &spans, &vec![5, -1]);
    assert_eq!(
        busted,
        r#"<link href="/css/a.css?v=5"><script src="/js/b.js?v=-1"></script><img src="/vendor/x.js">"#
    );
}

#[test]
fn a_page_without_assets_is_unchanged() {
    let html = "<p>héllo</p>";
    let spans = asset_paths(html);
    assert!(spans.is_empty());
    assert_eq!(bust_cache(html, &spans, &vec![]), html);
}

#[test]
fn asset_paths_pick_the_css_and_js() {
    let html = r#"<link href="/css/a.css"><script src="/js/b.js"></script><img src="/vendor/x.js">"#;
    let spans = asset_paths(html);
    let picked: Vec<&str> = spans.iter().map(|&(a, b)| &html[a..b]).collect();
    assert_eq!(picked, ["/css/a.css", "/js/b.js"]);
    assert_eq!(possess::webroot::present_spans(&vec![Some((1, 2)), None, Some((3, 5))]), vec![(1, 2), (3, 5)]);
}

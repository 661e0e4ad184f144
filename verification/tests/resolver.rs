use web2050::resolver::{content_type_for, resolve, ValidationError};

#[test]
fn bare_domain_gets_default_artifact() {
    let r = resolve("/example.com").unwrap();
    assert_eq!(r.key, "example.com");
    assert_eq!(r.path, "example.com/index.html");
    assert_eq!(r.kind, "html");
}

#[test]
fn path_with_extension_is_kept() {
    let r = resolve("/example.com/style.css").unwrap();
    assert_eq!(r.key, "example.com");
    assert_eq!(r.path, "example.com/style.css");
    assert_eq!(r.kind, "css");
}

#[test]
fn nested_path_without_extension_gets_default_artifact() {
    let r = resolve("example.com/blog").unwrap();
    assert_eq!(r.key, "example.com");
    assert_eq!(r.path, "example.com/blog/index.html");
    assert_eq!(r.kind, "html");
}

#[test]
fn source_map_probe_is_rejected() {
    assert!(matches!(resolve("/example.com/app.js.map"), Err(ValidationError::BadRequest)));
    assert!(matches!(resolve("/x.map"), Err(ValidationError::BadRequest)));
}

#[test]
fn overlong_path_is_rejected() {
    let long = format!("/example.com/{}.css", "a".repeat(80));
    assert!(matches!(resolve(&long), Err(ValidationError::UriTooLong)));
}

#[test]
fn length_bound_counts_the_normalized_path() {
    // 61 characters of segment + "/index.html" (11) is exactly 72; one more
    // pushes past the bound.
    let raw = format!("/{}", "a".repeat(62));
    assert!(matches!(resolve(&raw), Err(ValidationError::UriTooLong)));
    let raw = format!("/{}", "a".repeat(61));
    let r = resolve(&raw).unwrap();
    assert_eq!(r.path.len(), 72);
}

#[test]
fn root_path_resolves_to_default_artifact() {
    let r = resolve("/").unwrap();
    assert_eq!(r.key, "index.html");
    assert_eq!(r.path, "index.html");
    assert_eq!(r.kind, "html");
}

#[test]
fn trailing_separator_gets_default_artifact_directly() {
    let r = resolve("/example.com/blog/").unwrap();
    assert_eq!(r.key, "example.com");
    assert_eq!(r.path, "example.com/blog/index.html");
    assert_eq!(r.kind, "html");
}

#[test]
fn leading_dot_is_not_an_extension() {
    let r = resolve("/a/.map").unwrap();
    assert_eq!(r.path, "a/.map/index.html");
    assert_eq!(r.kind, "html");
}

#[test]
fn trailing_dot_gives_empty_kind() {
    let r = resolve("/a/b.").unwrap();
    assert_eq!(r.path, "a/b.");
    assert_eq!(r.kind, "");
}

#[test]
fn known_extension_maps_to_its_media_type() {
    assert_eq!(content_type_for("css"), "text/css");
    assert_eq!(content_type_for("svg"), "image/svg+xml");
}

#[test]
fn unknown_extension_defaults_to_html() {
    assert_eq!(content_type_for("zzqq"), "text/html");
    assert_eq!(content_type_for(""), "text/html");
}

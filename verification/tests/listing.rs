use web2050::listing::{file_entry, search_entry};

#[test]
fn file_listing_entry_links_the_path() {
    assert_eq!(
        file_entry("example.com/index.html"),
        "<li><a href=\"/example.com/index.html\">example.com/index.html</a></li>"
    );
}

#[test]
fn search_entry_splits_at_the_first_separator() {
    assert_eq!(
        search_entry("a/b.html:x: y"),
        Some(String::from("<li><a href=\"/a/b.html\">a/b.html</a><pre><code>x: y</code></pre></li>"))
    );
}

#[test]
fn search_entry_escapes_the_snippet() {
    assert_eq!(
        search_entry("p.html:a <b> & c"),
        Some(String::from(
            "<li><a href=\"/p.html\">p.html</a><pre><code>a &lt;b&gt; &amp; c</code></pre></li>"
        ))
    );
}

#[test]
fn line_without_separator_yields_no_entry() {
    assert_eq!(search_entry("no separator here"), None);
}

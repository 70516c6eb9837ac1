use sitegen::{destination_file_name, is_markup_file_name, plan_entry, render_document};

#[test]
fn document_becomes_page() {
    let document = "---\ntitle: Hello\n---\n# Welcome\n* one\n* two\n";
    let page = render_document("{{ title }}: {{ content }}", document);
    assert_eq!(page, "Hello: <h1>Welcome</h1>\n<li>one</li>\n<li>two</li>\n");
    assert_eq!(plan_entry("a.md", true), Some("a.html".to_string()));
}

#[test]
fn document_without_front_matter() {
    let page = render_document("<main>{{ content }}</main>{{ title }}", "hello\n");
    assert_eq!(page, "<main><p>hello</p>\n</main>{{ title }}");
}

#[test]
fn other_extension_gives_no_page() {
    assert_eq!(plan_entry("notes.txt", true), None);
    assert_eq!(plan_entry("page.html", true), None);
    assert_eq!(plan_entry("README", true), None);
    assert_eq!(plan_entry("a.md.bak", true), None);
    assert_eq!(plan_entry("a.markdown", true), None);
}

#[test]
fn extension_is_case_sensitive() {
    assert_eq!(plan_entry("a.MD", true), None);
    assert_eq!(plan_entry("a.Md", true), None);
    assert!(!is_markup_file_name("A.mD"));
    assert!(is_markup_file_name("A.md"));
}

#[test]
fn directory_gives_no_page() {
    assert_eq!(plan_entry("posts", false), None);
    assert_eq!(plan_entry("posts.md", false), None);
}

#[test]
fn name_that_is_only_an_extension_is_no_document() {
    assert!(!is_markup_file_name(".md"));
    assert!(!is_markup_file_name("md"));
    assert!(!is_markup_file_name(""));
    assert!(!is_markup_file_name("a.md."));
    assert!(is_markup_file_name("..md"));
    assert!(is_markup_file_name("a.b.md"));
}

#[test]
fn page_name_replaces_the_extension() {
    assert_eq!(destination_file_name("a.md"), "a.html");
    assert_eq!(destination_file_name("my.post.md"), "my.post.html");
    assert_eq!(destination_file_name("notes.txt"), "notes.html");
    assert_eq!(destination_file_name("unknown"), "unknown.html");
    assert_eq!(destination_file_name(".hidden"), ".hidden.html");
    assert_eq!(destination_file_name("trailing."), "trailing.html");
    assert_eq!(destination_file_name("ünï.md"), "ünï.html");
    assert_eq!(destination_file_name("..md"), "..html");
}

#[test]
fn page_name_agrees_with_the_standard_library() {
    for name in ["a.md", "a.b.md", ".md", "x", "x.", "a..md", "a.txt", "ü.md", "a b.md", ".a.b"] {
        let expected = std::path::Path::new(name).with_extension("html");
        assert_eq!(destination_file_name(name), expected.to_str().unwrap(), "{}", name);
        let is_md = std::path::Path::new(name).extension().map_or(false, |e| e == "md");
        assert_eq!(is_markup_file_name(name), is_md, "{}", name);
    }
}

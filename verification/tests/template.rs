use sitegen::template::placeholder_for;
use sitegen::{render_template, Metadata};

fn metadata(pairs: &[(&str, &str)]) -> Metadata {
    let mut m = Metadata::new();
    for (k, v) in pairs {
        m.insert(k.to_string(), v.to_string());
    }
    m
}

#[test]
fn title_and_content_are_filled_in() {
    let m = metadata(&[("title", "Hi")]);
    let page = render_template("<html>{{ title }}<body>{{ content }}</body></html>", &m, "<p>x</p>\n");
    assert_eq!(page, "<html>Hi<body><p>x</p>\n</body></html>");
}

#[test]
fn placeholder_for_absent_key_is_left_as_it_is() {
    let m = metadata(&[("title", "Hi")]);
    let page = render_template("{{ title }} by {{ author }}: {{ content }}", &m, "text");
    assert_eq!(page, "Hi by {{ author }}: text");
}

#[test]
fn template_without_placeholders_is_unchanged() {
    let m = metadata(&[("title", "Hi")]);
    assert_eq!(render_template("<html></html>", &m, "c"), "<html></html>");
    assert_eq!(render_template("", &m, "c"), "");
}

#[test]
fn every_occurrence_is_replaced() {
    let m = metadata(&[("t", "X")]);
    let page = render_template("{{ t }}-{{ t }}-{{ content }}-{{ content }}", &m, "C");
    assert_eq!(page, "X-X-C-C");
}

#[test]
fn placeholder_shape_is_exact() {
    let m = metadata(&[("t", "X")]);
    let page = render_template("{{t}} {{  t  }} {t} {{ T }} {{ t }", &m, "C");
    assert_eq!(page, "{{t}} {{  t  }} {t} {{ T }} {{ t }");
}

#[test]
fn empty_metadata_fills_only_the_content() {
    let m = Metadata::new();
    assert_eq!(render_template("{{ title }}: {{ content }}", &m, "body"), "{{ title }}: body");
}

#[test]
fn content_is_substituted_after_the_metadata() {
    let m = metadata(&[("title", "{{ content }}")]);
    assert_eq!(render_template("{{ title }}", &m, "C"), "C");
    let m = metadata(&[("title", "T")]);
    assert_eq!(render_template("{{ content }}", &m, "{{ title }}"), "{{ title }}");
}

#[test]
fn key_named_content_comes_before_the_fragment() {
    let m = metadata(&[("content", "from metadata")]);
    assert_eq!(render_template("{{ content }}", &m, "fragment"), "from metadata");
}

#[test]
fn entries_are_substituted_in_their_order() {
    let m = metadata(&[("a", "{{ b }}"), ("b", "x")]);
    assert_eq!(render_template("{{ a }}", &m, ""), "x");
    let m = metadata(&[("b", "x"), ("a", "{{ b }}")]);
    assert_eq!(render_template("{{ a }}", &m, ""), "{{ b }}");
}

#[test]
fn values_are_inserted_verbatim() {
    let m = metadata(&[("title", "<b>&</b>")]);
    assert_eq!(render_template("[{{ title }}]", &m, ""), "[<b>&</b>]");
}

#[test]
fn non_ascii_text_is_kept() {
    let m = metadata(&[("título", "Añadir ☕")]);
    assert_eq!(render_template("«{{ título }}» {{ content }}", &m, "日本語"), "«Añadir ☕» 日本語");
}

#[test]
fn placeholder_has_single_spaces_inside_double_braces() {
    let p: String = placeholder_for("title").iter().collect();
    assert_eq!(p, "{{ title }}");
    let p: String = placeholder_for("").iter().collect();
    assert_eq!(p, "{{  }}");
}

#[test]
fn order_of_entries_is_immaterial_for_a_tidy_template() {
    let template = "<title>{{ title }}</title><h1>{{ title }}</h1><p>{{ author }}, {{ date }}</p>{{ content }}";
    let pairs = [("title", "A } B"), ("author", "Jane"), ("date", "2024-01-01")];
    let expected = "<title>A } B</title><h1>A } B</h1><p>Jane, 2024-01-01</p>C";
    let orders: [[usize; 3]; 6] = [[0, 1, 2], [0, 2, 1], [1, 0, 2], [1, 2, 0], [2, 0, 1], [2, 1, 0]];
    for order in orders {
        let mut m = Metadata::new();
        for i in order {
            m.insert(pairs[i].0.to_string(), pairs[i].1.to_string());
        }
        assert_eq!(render_template(template, &m, "C"), expected);
    }
}

#[test]
fn order_matters_where_a_value_completes_a_placeholder() {
    let template = "{{{{ a }}}}";
    let m = metadata(&[("a", " b "), ("b", "X")]);
    assert_eq!(render_template(template, &m, ""), "X");
    let m = metadata(&[("b", "X"), ("a", " b ")]);
    assert_eq!(render_template(template, &m, ""), "{{ b }}");
}

#[test]
fn overlapping_placeholder_of_an_absent_key_can_be_lost() {
    let m = metadata(&[("b", "x")]);
    assert_eq!(render_template("{{ a{{ b }}", &m, ""), "{{ ax");
}

use latex_tree::markup::{escaped_str, figure_directive, input_directive, section_heading,
    sub_heading};

#[test]
fn section_heading_basic() {
    assert_eq!(section_heading("sub").as_str(), "\\section{sub}");
}

#[test]
fn sub_heading_basic() {
    assert_eq!(sub_heading("b").as_str(), "\\subsubsection*{b}");
}

#[test]
fn input_directive_basic() {
    assert_eq!(
        input_directive("root/sub/section.tex").as_str(),
        "\\input{root/sub/section.tex}"
    );
}

#[test]
fn figure_directive_plain_path() {
    assert_eq!(
        figure_directive("root/sub/b").as_str(),
        "\\includegraphics[width=0.65\\textwidth]{\"root/sub/b\"}"
    );
}

#[test]
fn figure_directive_escapes_specials() {
    assert_eq!(
        figure_directive("a\"b\\c").as_str(),
        "\\includegraphics[width=0.65\\textwidth]{\"a\\\"b\\\\c\"}"
    );
}

#[test]
fn escaped_str_leaves_ordinary_text() {
    assert_eq!(escaped_str("plain_path/img-1").as_str(), "plain_path/img-1");
}

#[test]
fn escaped_str_empty() {
    assert_eq!(escaped_str("").as_str(), "");
}

#[test]
fn escaped_str_escapes_quote_and_backslash() {
    assert_eq!(escaped_str("\"\\").as_str(), "\\\"\\\\");
}

#[test]
fn index_content_joins_with_newlines() {
    let directives = vec!["\\input{a/section.tex}".to_string(), "\\input{b/section.tex}".to_string()];
    assert_eq!(
        latex_tree::render::index_content(&directives).as_str(),
        "\\input{a/section.tex}\n\\input{b/section.tex}"
    );
}

#[test]
fn index_content_of_nothing_is_empty() {
    let directives: Vec<String> = vec![];
    assert_eq!(latex_tree::render::index_content(&directives).as_str(), "");
}

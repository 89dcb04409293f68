use hashcards::markdown::is_audio_file;
use hashcards::markdown::markdown_to_html;
use hashcards::markdown::markdown_to_html_inline;
use hashcards::markdown::modify_url;
use hashcards::markdown::rewrite_latex_delimiters;
use hashcards::markdown::MarkdownRenderConfig;
use hashcards::markdown::MediaResolver;

fn make_test_config() -> MarkdownRenderConfig {
    MarkdownRenderConfig {
        resolver: MediaResolver::new()
            .with_media("@/image.png".to_string(), "image.png".to_string())
            .with_media("song.mp3".to_string(), "audio/song.mp3".to_string()),
        resource_hostname: "localhost".to_string(),
        port: 1234,
    }
}

#[test]
fn test_markdown_to_html() {
    let markdown = "![alt](@/image.png)";
    let config = make_test_config();
    let html = markdown_to_html(&config, markdown).unwrap();
    assert_eq!(html, "<p><img src=\"http://localhost:1234/file/image.png\" alt=\"alt\" /></p>\n");
}

#[test]
fn test_markdown_to_html_custom_resource_hostname() {
    let markdown = "![alt](@/image.png)";
    let mut config = make_test_config();
    config.resource_hostname = "host.containers.internal".to_string();
    let html = markdown_to_html(&config, markdown).unwrap();
    assert_eq!(
        html,
        "<p><img src=\"http://host.containers.internal:1234/file/image.png\" alt=\"alt\" /></p>\n"
    );
}

#[test]
fn test_markdown_to_html_inline() {
    let markdown = "This is **bold** text.";
    let config = make_test_config();
    let html = markdown_to_html_inline(&config, markdown).unwrap();
    assert_eq!(html, "This is <strong>bold</strong> text.");
}

#[test]
fn test_markdown_to_html_inline_heading() {
    let markdown = "# Foo";
    let config = make_test_config();
    let html = markdown_to_html_inline(&config, markdown).unwrap();
    assert_eq!(html, "<h1>Foo</h1>\n");
}

#[test]
fn test_unresolved_media() {
    let config = make_test_config();
    let e = markdown_to_html(&config, "![alt](missing.png)").unwrap_err();
    assert_eq!(e.message(), "Failed to resolve media path 'missing.png': unknown media file");
}

#[test]
fn test_modify_url() {
    let config = make_test_config();
    assert_eq!(modify_url("@/image.png", &config).unwrap(), "http://localhost:1234/file/image.png");
    assert!(modify_url("nope.png", &config).is_err());
}

#[test]
fn test_audio_link() {
    assert!(is_audio_file("song.mp3"));
    assert!(is_audio_file("a/b.c.ogg"));
    assert!(!is_audio_file("image.png"));
    // The text after the last dot, or the whole text without one.
    assert!(is_audio_file("mp3"));
    assert!(!is_audio_file("song.mp3.txt"));
    let config = make_test_config();
    let html = markdown_to_html(&config, "![](song.mp3)").unwrap();
    assert!(html.contains("<audio"));
    assert!(html.contains("http://localhost:1234/file/audio/song.mp3"));
}

#[test]
fn test_rewrite_latex_delimiters() {
    assert_eq!(rewrite_latex_delimiters("a \\(x^2\\) b"), "a $x^2$ b");
    assert_eq!(rewrite_latex_delimiters("\\[x\\]"), "$$x$$");
    assert_eq!(rewrite_latex_delimiters("`\\(x\\)`"), "`\\(x\\)`");
    assert_eq!(rewrite_latex_delimiters("```\n\\(x\\)\n```\n"), "```\n\\(x\\)\n```\n");
    assert_eq!(rewrite_latex_delimiters("\\\\(x\\)"), "\\\\(x\\)");
    assert_eq!(rewrite_latex_delimiters("no math here"), "no math here");
}

#[test]
fn test_math_renders() {
    let config = make_test_config();
    let html = markdown_to_html(&config, "\\(x\\)").unwrap();
    assert!(html.contains("x"));
}

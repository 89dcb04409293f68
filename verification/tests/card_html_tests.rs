use hashcards::card::Card;
use hashcards::card::CardContent;
use hashcards::markdown::MarkdownRenderConfig;
use hashcards::markdown::MediaResolver;

fn config() -> MarkdownRenderConfig {
    MarkdownRenderConfig {
        resolver: MediaResolver::new(),
        resource_hostname: "localhost".to_string(),
        port: 8000,
    }
}

#[test]
fn test_basic_faces() {
    let c = CardContent::new_basic("What is **2+2**?", "4");
    assert_eq!(c.html_front(&config()).unwrap(), "<p>What is <strong>2+2</strong>?</p>\n");
    assert_eq!(c.html_back(&config()).unwrap(), "<p>4</p>\n");
}

#[test]
fn test_cloze_faces() {
    let c = CardContent::new_cloze("The capital of France is Paris.", 25, 29);
    assert_eq!(
        c.html_front(&config()).unwrap(),
        "<p>The capital of France is <span class='cloze'>.............</span>.</p>\n"
    );
    assert_eq!(
        c.html_back(&config()).unwrap(),
        "<p>The capital of France is <span class='cloze-reveal'>Paris</span>.</p>\n"
    );
}

#[test]
fn test_family_back_reveals_every_deletion() {
    // Eleven deletions: the marker of the second is a prefix of no other,
    // even of the eleventh's.
    let text = "a b c d e f g h i j k";
    let cards: Vec<Card> = (0..11)
        .map(|i| {
            Card::new(
                "d".to_string(),
                "/c/d.md".to_string(),
                (0, 0),
                CardContent::new_cloze(text, 2 * i, 2 * i),
            )
        })
        .collect();
    let family: Vec<&Card> = cards.iter().rev().collect();
    assert!(Card::family_fits(&family));
    let html = Card::html_back_family(&family, &config()).unwrap();
    let expected: Vec<String> = "abcdefghijk"
        .chars()
        .map(|c| format!("<span class='cloze-reveal'>{c}</span>"))
        .collect();
    assert_eq!(html, format!("<p>{}</p>\n", expected.join(" ")));
}

#[test]
fn test_family_errors() {
    let a = CardContent::new_cloze("one text", 0, 2);
    let b = CardContent::new_cloze("another text", 0, 6);
    let basic = CardContent::new_basic("q", "a");
    assert_eq!(
        CardContent::html_back_family(&[&a, &b], &config()).unwrap_err().message(),
        "html_back_family called with cards from different cloze families"
    );
    assert_eq!(
        CardContent::html_back_family(&[&a, &basic], &config()).unwrap_err().message(),
        "html_back_family called with a basic card"
    );
    assert_eq!(
        CardContent::html_back_family(&[], &config()).unwrap_err().message(),
        "html_back_family called with an empty family"
    );
}

#[test]
fn test_renderable_checks() {
    assert!(CardContent::new_basic("q", "a").renderable());
    assert!(CardContent::new_cloze("abc", 0, 2).renderable());
    assert!(!CardContent::new_cloze("abc", 0, 3).renderable());
    let a = CardContent::new_cloze("abcdef", 0, 2);
    let overlapping = CardContent::new_cloze("abcdef", 1, 3);
    let later = CardContent::new_cloze("abcdef", 4, 5);
    assert!(CardContent::family_fits(&[&later, &a]));
    assert!(!CardContent::family_fits(&[&a, &overlapping]));
}

#[test]
fn test_family_back_independent_of_order() {
    let text = "Paris is the capital of France.";
    let a = CardContent::new_cloze(text, 0, 4);
    let b = CardContent::new_cloze(text, 24, 29);
    let c = CardContent::new_cloze(text, 13, 19);
    let one = CardContent::html_back_family(&[&a, &b, &c], &config()).unwrap();
    let two = CardContent::html_back_family(&[&c, &a, &b], &config()).unwrap();
    let three = CardContent::html_back_family(&[&b, &c, &a], &config()).unwrap();
    assert_eq!(one, two);
    assert_eq!(one, three);
    assert!(one.contains("<span class='cloze-reveal'>Paris</span>"));
}

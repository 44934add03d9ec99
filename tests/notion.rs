use kindle_to_notion::clippings::{BookClips, Clip};
use kindle_to_notion::date::LocalDateTime;
use kindle_to_notion::notion::{
    BlockType, Callout, Child, Color, Date, Divider, Icon, Mention, Quote, RichText, Text,
    TextType, QUOTE_LIMIT,
};

fn when() -> LocalDateTime {
    LocalDateTime { year: 2023, month: 2, day: 13, hour: 0, minute: 29, second: 40 }
}

fn clip(content: &str) -> Clip {
    Clip {
        book: "Shoe Dog: A Memoir".to_string(),
        author: "Phil Knight".to_string(),
        content: content.to_string(),
        date: when(),
        location: (877, 879),
    }
}

fn text_span(s: &str) -> RichText {
    RichText {
        text: Some(Text { content: s.to_string() }),
        mention: None,
        type_field: TextType::Text,
    }
}

fn quote_texts(child: &Child) -> Vec<String> {
    child
        .quote
        .as_ref()
        .unwrap()
        .rich_text
        .iter()
        .filter_map(|r| r.text.as_ref().map(|t| t.content.clone()))
        .collect()
}

#[test]
fn callout_block() {
    let c = Child::new_callout("Phil Knight".to_string(), "\u{270d}\u{fe0f}");
    assert_eq!(c.type_field, BlockType::Callout);
    assert_eq!(
        c.callout,
        Some(Callout {
            color: Color::Default,
            icon: Icon { emoji: "\u{270d}\u{fe0f}".to_string() },
            rich_text: vec![text_span("Phil Knight")],
        })
    );
    assert!(c.divider.is_none() && c.quote.is_none());
}

#[test]
fn divider_block() {
    let c = Child::new_divider();
    assert_eq!(c.type_field, BlockType::Divider);
    assert_eq!(c.divider, Some(Divider {}));
    assert!(c.callout.is_none() && c.quote.is_none());
}

#[test]
fn quote_block_with_and_without_date() {
    let plain = Child::new_quote("part".to_string(), None);
    assert_eq!(plain.quote, Some(Quote { rich_text: vec![text_span("part")] }));
    let dated = Child::new_quote("end".to_string(), Some(when()));
    assert_eq!(
        dated.quote,
        Some(Quote {
            rich_text: vec![
                text_span("end"),
                text_span("\n"),
                RichText {
                    text: None,
                    mention: Some(Mention { date: Some(Date { start: when() }) }),
                    type_field: TextType::Mention,
                },
            ],
        })
    );
}

#[test]
fn page_of_a_book_with_subtitle() {
    let book = BookClips {
        book_name: "Shoe Dog: A Memoir".to_string(),
        author: "Phil Knight".to_string(),
        clips: vec![clip("One. Two."), clip("")],
    };
    let page = book.to_notion_body("page-id");
    assert_eq!(page.parent.page_id, "page-id");
    assert_eq!(page.icon.emoji, "\u{1f4d6}");
    assert_eq!(page.properties.title.len(), 1);
    assert_eq!(page.properties.title[0].text.content, "Shoe Dog");
    let kinds: Vec<BlockType> = page.children.iter().map(|c| c.type_field).collect();
    assert_eq!(
        kinds,
        vec![
            BlockType::Callout,
            BlockType::Callout,
            BlockType::Divider,
            BlockType::Quote,
            BlockType::Quote
        ]
    );
    assert_eq!(page.children[0], Child::new_callout("Shoe Dog: A Memoir".to_string(), "\u{1f4d5}"));
    assert_eq!(page.children[1], Child::new_callout("Phil Knight".to_string(), "\u{270d}\u{fe0f}"));
    assert_eq!(page.children[3], Child::new_quote("One. Two.".to_string(), Some(when())));
    assert_eq!(page.children[4], Child::new_quote(String::new(), Some(when())));
}

#[test]
fn page_of_a_book_without_subtitle() {
    let book = BookClips {
        book_name: "Deep Work".to_string(),
        author: "Cal Newport".to_string(),
        clips: vec![],
    };
    let page = book.to_notion_body("p");
    assert_eq!(page.properties.title[0].text.content, "Deep Work");
    assert_eq!(page.children.len(), 2);
    assert_eq!(page.children[0], Child::new_callout("Cal Newport".to_string(), "\u{270d}\u{fe0f}"));
    assert_eq!(page.children[1], Child::new_divider());
}

#[test]
fn long_content_is_split_after_sentences() {
    let sentence = format!("{}. ", "a".repeat(998));
    let content = format!("{sentence}{sentence}{sentence}end");
    let book = BookClips {
        book_name: "Deep Work".to_string(),
        author: "Cal Newport".to_string(),
        clips: vec![clip(&content)],
    };
    let page = book.to_notion_body("p");
    let quotes = &page.children[2..];
    assert_eq!(quotes.len(), 3);
    assert_eq!(quote_texts(&quotes[0]), vec![sentence.clone()]);
    assert_eq!(quote_texts(&quotes[1]), vec![sentence.clone()]);
    assert_eq!(quote_texts(&quotes[2]), vec![format!("{sentence}end"), "\n".to_string()]);
    assert!(quotes[0].quote.as_ref().unwrap().rich_text.len() == 1);
    assert!(quotes[2].quote.as_ref().unwrap().rich_text.len() == 3);
    let joined: String = quotes.iter().map(|q| quote_texts(q)[0].clone()).collect();
    assert_eq!(joined, content);
    assert!(quotes.iter().all(|q| quote_texts(q)[0].len() <= QUOTE_LIMIT));
}

#[test]
fn split_counts_bytes_not_characters() {
    // Each phrase is 301 characters but 899 bytes: two fit in a quote, three do not.
    let sentence = format!("{}. ", "\u{20ac}".repeat(299));
    let content = format!("{sentence}{sentence}{sentence}");
    let book = BookClips {
        book_name: "B".to_string(),
        author: "A".to_string(),
        clips: vec![clip(&content)],
    };
    let page = book.to_notion_body("p");
    let quotes = &page.children[2..];
    assert_eq!(quotes.len(), 2);
    assert_eq!(quote_texts(&quotes[0])[0], format!("{sentence}{sentence}"));
    assert_eq!(quote_texts(&quotes[1])[0], sentence);
}

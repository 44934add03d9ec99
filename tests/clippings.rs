use kindle_to_notion::add;
use kindle_to_notion::clippings::{
    nom_first_row, nom_location_2023_02, nom_location_old, nom_single_clip, parse_clips, BookClips,
    Clip,
};
use kindle_to_notion::date::LocalDateTime;
use kindle_to_notion::error::ParseError;

const LINCOLN: &str = "The old neighbour called at the White House, and Lincoln talked to him for hours about the advisability of issuing a proclamation freeing the slaves. Lincoln went over all the arguments for and against such a move, and then read letters and newspaper articles, some denouncing him for not freeing the slaves and others denouncing him for fear he was going to free them. After talking for hours, Lincoln shook hands with his old neighbour, said good night, and sent him back to Illinois without even asking for his opinion. Lincoln had done all the talking himself. That seemed to clarify his mind. ‘He seemed to feel easier after that talk,’ the old friend said. Lincoln hadn’t wanted advice. He had wanted merely a friendly, sympathetic listener to whom he could unburden himself.";

fn dt(year: i32, month: u32, day: u32, hour: u32, minute: u32, second: u32) -> LocalDateTime {
    LocalDateTime { year, month, day, hour, minute, second }
}

fn record(title_line: &str, location: &str, date: &str, content: &str) -> String {
    format!("{title_line}\n- Your Highlight at location {location} | Added on {date}\n\n{content}\n")
}

#[test]
fn it_works() {
    let result = add(2, 2);
    assert_eq!(result, 4);
}

#[test]
fn test_parse_first_row() {
    let first_row = "Building... (NEW) (2022) (Tiago Forte)
";
    let (author, book) = nom_first_row(first_row).expect("Could not nom first row");

    assert_eq!(author, "Building... (NEW) (2022)");
    assert_eq!(book, "Tiago Forte");
}

#[test]
fn test_parse_single_clip_simple() {
    let test_clip = format!("How to Win Friends and Influence People (Dale Carnegie)
- Your Highlight at location 1502-1507 | Added on Tuesday, 1 December 2020 16:58:58

{LINCOLN}
");
    let parsed_clip = nom_single_clip(&test_clip).expect("Could not nom clip");
    assert_eq!(
        parsed_clip,
        Clip {
            book: "How to Win Friends and Influence People".to_string(),
            author: "Dale Carnegie".to_string(),
            content: LINCOLN.to_string(),
            date: dt(2020, 12, 1, 16, 58, 58),
            location: (1502, 1507),
        }
    );
}

#[test]
fn test_parse_single_clip_parenthesis_in_title() {
    let test_clip = "Building a Second Brain: A Proven Method to Organize Your Digital Life and Unlock Your Creative Potential (2022) (Tiago Forte)
- Your Highlight at location 1096-1097 | Added on Sunday, 18 December 2022 10:20:38

It’s important to keep capturing relatively effortless because it is only the first step.
";
    let parsed_clip =
        nom_single_clip(test_clip).expect("Could not nom clip with parenthesis in title");
    assert_eq!(
        parsed_clip,
        Clip {
            book: "Building a Second Brain: A Proven Method to Organize Your Digital Life and Unlock Your Creative Potential (2022)".to_string(),
            author: "Tiago Forte".to_string(),
            content: "It’s important to keep capturing relatively effortless because it is only the first step.".to_string(),
            date: dt(2022, 12, 18, 10, 20, 38),
            location: (1096, 1097),
        }
    );
}

#[test]
fn test_parse_single_clip_2023_02_format() {
    let test_clip = "Shoe Dog (Phil Knight)
- Your Highlight on page 58 | location 877-879 | Added on Monday, 13 February 2023 00:29:40

People reflexively assume that competition is always a good thing, that it always brings out the best in people, but that’s only true of people who can forget the competition. The art of competing, I’d learned from track, was the art of forgetting, and I now reminded myself of that fact. You must forget your limits.
";
    let parsed_clip = nom_single_clip(test_clip).expect("Could not nom clip with new format");
    assert_eq!(parsed_clip.book, "Shoe Dog");
    assert_eq!(parsed_clip.author, "Phil Knight");
    assert_eq!(parsed_clip.location, (877, 879));
    assert_eq!(parsed_clip.date, dt(2023, 2, 13, 0, 29, 40));
    assert_eq!(
        parsed_clip.content,
        "People reflexively assume that competition is always a good thing, that it always brings out the best in people, but that’s only true of people who can forget the competition. The art of competing, I’d learned from track, was the art of forgetting, and I now reminded myself of that fact. You must forget your limits."
    );
}

#[test]
fn test_parse_location_2023_02() {
    let test_location = "- Your Highlight on page 58 | location 877-879 |";

    let parsed_location =
        nom_location_2023_02(test_location).expect("Could not nom location with new format");
    assert_eq!(parsed_location, (877, 879));
}

#[test]
fn test_all_clippings_parsing() {
    let input = format!(
        "\u{feff}{}==========\n{}==========\n{}==========\n{}==========\n",
        record("Shoe Dog (Phil Knight)", "877-879", "Monday, 13 February 2023 00:29:40", "First."),
        record("Shoe Dog (Phil Knight)", "900-901", "Monday, 13 February 2023 00:31:02", "Second."),
        record("Deep Work (Cal Newport)", "10-12", "Friday, 3 March 2023 09:00:00", "Third."),
        record("Shoe Dog (Phil Knight)", "950-955", "Saturday, 4 March 2023 21:15:00", "Fourth."),
    );
    let books = parse_clips(&input).expect("Could not parse clippings");
    let summary: Vec<(String, String, Vec<String>)> = books
        .iter()
        .map(|b| {
            (
                b.book_name.clone(),
                b.author.clone(),
                b.clips.iter().map(|c| c.content.clone()).collect(),
            )
        })
        .collect();
    assert_eq!(
        summary,
        vec![
            ("Shoe Dog".to_string(), "Phil Knight".to_string(), vec!["First.".to_string(), "Second.".to_string()]),
            ("Deep Work".to_string(), "Cal Newport".to_string(), vec!["Third.".to_string()]),
            ("Shoe Dog".to_string(), "Phil Knight".to_string(), vec!["Fourth.".to_string()]),
        ]
    );
    assert_eq!(books[2].clips[0].location, (950, 955));
    assert_eq!(books[1].clips[0].date, dt(2023, 3, 3, 9, 0, 0));
}

#[test]
fn single_record_with_delimiter_gives_one_clip() {
    let r = record("Shoe Dog (Phil Knight)", "877-879", "Monday, 13 February 2023 00:29:40", "Text.");
    let books = parse_clips(&format!("{r}==========\n")).unwrap();
    assert_eq!(
        books,
        vec![BookClips {
            book_name: "Shoe Dog".to_string(),
            author: "Phil Knight".to_string(),
            clips: vec![Clip {
                book: "Shoe Dog".to_string(),
                author: "Phil Knight".to_string(),
                content: "Text.".to_string(),
                date: dt(2023, 2, 13, 0, 29, 40),
                location: (877, 879),
            }],
        }]
    );
}

#[test]
fn consecutive_records_of_one_book_form_one_group() {
    let mut input = String::new();
    for i in 0..3 {
        input.push_str(&record(
            "Deep Work (Cal Newport)",
            &format!("{}-{}", 10 * i, 10 * i + 5),
            "Friday, 3 March 2023 09:00:00",
            &format!("clip {i}"),
        ));
        input.push_str("==========\n");
    }
    let books = parse_clips(&input).unwrap();
    assert_eq!(books.len(), 1);
    let contents: Vec<&str> = books[0].clips.iter().map(|c| c.content.as_str()).collect();
    assert_eq!(contents, vec!["clip 0", "clip 1", "clip 2"]);
    assert_eq!(books[0].clips[2].location, (20, 25));
}

#[test]
fn non_adjacent_records_of_one_book_form_two_groups() {
    let input = format!(
        "{}==========\n{}==========\n{}==========\n",
        record("A (X)", "1-2", "Friday, 3 March 2023 09:00:00", "a1"),
        record("B (Y)", "1-2", "Friday, 3 March 2023 09:00:00", "b1"),
        record("A (X)", "3-4", "Friday, 3 March 2023 09:00:00", "a2"),
    );
    let books = parse_clips(&input).unwrap();
    let names: Vec<&str> = books.iter().map(|b| b.book_name.as_str()).collect();
    assert_eq!(names, vec!["A", "B", "A"]);
    assert_eq!(books[0].clips.len(), 1);
    assert_eq!(books[2].clips[0].content, "a2");
}

#[test]
fn same_title_other_author_is_another_book() {
    let input = format!(
        "{}==========\n{}==========\n",
        record("A (X)", "1-2", "Friday, 3 March 2023 09:00:00", "one"),
        record("A (Z)", "1-2", "Friday, 3 March 2023 09:00:00", "two"),
    );
    let books = parse_clips(&input).unwrap();
    assert_eq!(books.len(), 2);
    assert_eq!(books[1].author, "Z");
}

#[test]
fn two_books_end_to_end() {
    let input = "How to Win Friends and Influence People (Dale Carnegie)
- Your Highlight at location 1502-1507 | Added on Tuesday, 1 December 2020 16:58:58

Talk about the other person.
==========
Shoe Dog (Phil Knight)
- Your Highlight on page 58 | location 877-879 | Added on Monday, 13 February 2023 00:29:40

You must forget your limits.
==========
";
    let books = parse_clips(input).unwrap();
    assert_eq!(books.len(), 2);
    assert_eq!(books[0].book_name, "How to Win Friends and Influence People");
    assert_eq!(books[0].clips.len(), 1);
    assert_eq!(books[0].clips[0].location, (1502, 1507));
    assert_eq!(books[1].book_name, "Shoe Dog");
    assert_eq!(books[1].clips.len(), 1);
    assert_eq!(books[1].clips[0].content, "You must forget your limits.");
}

#[test]
fn empty_input_gives_no_books() {
    assert_eq!(parse_clips(""), Ok(vec![]));
}

#[test]
fn last_record_without_delimiter_is_read() {
    let input = format!(
        "{}==========\n{}",
        record("A (X)", "1-2", "Friday, 3 March 2023 09:00:00", "one"),
        record("B (Y)", "5-6", "Friday, 3 March 2023 09:00:00", "two"),
    );
    let books = parse_clips(&input).unwrap();
    assert_eq!(books.len(), 2);
    assert_eq!(books[1].clips[0].content, "two");
}

#[test]
fn text_before_resume_marker_is_skipped() {
    let input = format!(
        "{}==========\n==========\n{}==========\n",
        record("Old (Book)", "1-2", "Friday, 3 March 2023 09:00:00", "already sent"),
        record("New (Book)", "3-4", "Saturday, 4 March 2023 09:00:00", "fresh"),
    );
    let books = parse_clips(&input).unwrap();
    assert_eq!(books.len(), 1);
    assert_eq!(books[0].book_name, "New");
    assert_eq!(books[0].clips[0].content, "fresh");
}

#[test]
fn only_the_last_resume_marker_counts() {
    let input = format!(
        "{}==========\n==========\n{}==========\n==========\n{}==========\n",
        record("First (A)", "1-2", "Friday, 3 March 2023 09:00:00", "x"),
        record("Second (A)", "1-2", "Friday, 3 March 2023 09:00:00", "y"),
        record("Third (A)", "1-2", "Friday, 3 March 2023 09:00:00", "z"),
    );
    let books = parse_clips(&input).unwrap();
    assert_eq!(books.len(), 1);
    assert_eq!(books[0].book_name, "Third");
}

#[test]
fn marker_at_end_leaves_nothing_to_read() {
    let input = format!(
        "{}==========\n==========\n",
        record("Old (Book)", "1-2", "Friday, 3 March 2023 09:00:00", "done"),
    );
    assert_eq!(parse_clips(&input), Ok(vec![]));
}

#[test]
fn crlf_export_is_read() {
    let input = "\u{feff}Shoe Dog (Phil Knight)\r\n- Your Highlight on page 58 | location 877-879 | Added on Monday, 13 February 2023 00:29:40\r\n\r\nYou must forget your limits.\r\n==========\r\n";
    let books = parse_clips(input).unwrap();
    assert_eq!(books.len(), 1);
    assert_eq!(books[0].book_name, "Shoe Dog");
    assert_eq!(books[0].clips[0].content, "You must forget your limits.");
    assert_eq!(books[0].clips[0].location, (877, 879));
}

#[test]
fn bad_record_rejects_the_whole_export() {
    let input = format!(
        "{}==========\n{}==========\n",
        record("A (X)", "1-2", "Friday, 3 March 2023 09:00:00", "fine"),
        record("B (Y)", "1-2", "Friday, 3 Decembre 2023 09:00:00", "bad month"),
    );
    assert_eq!(parse_clips(&input), Err(ParseError::UnknownMonthError));
}

#[test]
fn first_failing_record_gives_the_error() {
    let input = format!(
        "{}==========\n{}==========\n",
        record("A (X)", "99999999999999999999999-2", "Friday, 3 March 2023 09:00:00", "x"),
        record("B (Y)", "1-2", "Friday, 3 Decembre 2023 09:00:00", "y"),
    );
    assert_eq!(parse_clips(&input), Err(ParseError::NumericFormatError));
}

#[test]
fn empty_content_is_accepted() {
    let r = record("Shoe Dog (Phil Knight)", "877-879", "Monday, 13 February 2023 00:29:40", "");
    let clip = nom_single_clip(&r).unwrap();
    assert_eq!(clip.content, "");
    let books = parse_clips(&format!("{r}==========\n")).unwrap();
    assert_eq!(books[0].clips[0].content, "");
}

#[test]
fn content_lines_are_kept_verbatim() {
    let r = record("A (X)", "1-2", "Friday, 3 March 2023 09:00:00", "line one\nline \"two\"");
    assert_eq!(nom_single_clip(&r).unwrap().content, "line one\nline \"two\"");
}

#[test]
fn bom_is_removed_from_title() {
    let (title, author) = nom_first_row("\u{feff}Deep Work (Cal Newport)\n").unwrap();
    assert_eq!(title, "Deep Work");
    assert_eq!(author, "Cal Newport");
}

#[test]
fn title_keeps_inner_groups() {
    let (title, author) = nom_first_row("Dune (Deluxe) (Frank Herbert)\r\n").unwrap();
    assert_eq!(title, "Dune (Deluxe)");
    assert_eq!(author, "Frank Herbert");
    let (title, author) = nom_first_row("Book (Author (Jr.)\n").unwrap();
    assert_eq!(title, "Book");
    assert_eq!(author, "Author (Jr.");
}

#[test]
fn title_without_author_group_is_structural_error() {
    assert_eq!(nom_first_row("Just a title\n"), Err(ParseError::StructuralParseError));
    assert_eq!(nom_first_row("Title (Author) trailing\n"), Err(ParseError::StructuralParseError));
    assert_eq!(nom_first_row("Title (Author)"), Err(ParseError::StructuralParseError));
}

#[test]
fn location_old_format() {
    assert_eq!(nom_location_old("- Your Highlight at location 1502-1507 |"), Ok((1502, 1507)));
    assert_eq!(nom_location_2023_02("- Your Highlight at location 1502-1507 |"), Ok((1502, 1507)));
    assert_eq!(
        nom_location_old("- Your Highlight on page 58 | location 877-879 |"),
        Err(ParseError::StructuralParseError)
    );
}

#[test]
fn location_separator_is_any_one_character() {
    assert_eq!(nom_location_2023_02("location 12–15 |"), Ok((12, 15)));
    assert_eq!(nom_location_2023_02("location 12--15 |"), Err(ParseError::StructuralParseError));
    assert_eq!(nom_location_2023_02("location 12-15|"), Err(ParseError::StructuralParseError));
    assert_eq!(nom_location_2023_02("Location 12-15 |"), Err(ParseError::StructuralParseError));
}

#[test]
fn location_numeric_errors() {
    assert_eq!(
        nom_location_2023_02("location 99999999999999999999999-1 |"),
        Err(ParseError::NumericFormatError)
    );
    assert_eq!(nom_location_2023_02("location 20-10 |"), Err(ParseError::NumericFormatError));
    assert_eq!(nom_location_2023_02("location 7-7 |"), Ok((7, 7)));
}

#[test]
fn record_structure_errors() {
    let no_blank = "A (X)\n- Your Highlight at location 1-2 | Added on Friday, 3 March 2023 09:00:00\ncontent\n";
    assert_eq!(nom_single_clip(no_blank), Err(ParseError::StructuralParseError));
    let no_comma = "A (X)\n- Your Highlight at location 1-2 | Added on Friday 3 March 2023 09:00:00\n\ncontent\n";
    assert_eq!(nom_single_clip(no_comma), Err(ParseError::StructuralParseError));
    let one_line = "A (X)\n";
    assert_eq!(nom_single_clip(one_line), Err(ParseError::StructuralParseError));
    let note = "A (X)\n- Your Note on location 1502 | Added on Friday, 3 March 2023 09:00:00\n\nnote\n";
    assert_eq!(nom_single_clip(note), Err(ParseError::StructuralParseError));
}

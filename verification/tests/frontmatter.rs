use rhizolog::frontmatter::{compose, split, strip_bom, FrontmatterError};

#[test]
fn a_block_and_a_body_are_found() {
    let text = "---\ncreated: 2026-08-20T14:15:30Z\nowner: tim\n---\n\nMaybe dungeon quests should require seeds.\n";
    let (yaml, body) = split(text).unwrap().expect("a frontmatter block");
    assert_eq!(yaml, "created: 2026-08-20T14:15:30Z\nowner: tim\n");
    assert_eq!(body, "\nMaybe dungeon quests should require seeds.\n");
}

#[test]
fn a_file_without_a_block_is_all_body() {
    assert_eq!(split("Just a thought.\n"), Ok(None));
    assert_eq!(split(""), Ok(None));
    assert_eq!(split("--- not a block\n"), Ok(None));
}

#[test]
fn an_unclosed_block_is_refused() {
    assert_eq!(
        split("---\nkind: idea_retired\n"),
        Err(FrontmatterError::Unterminated)
    );
    assert_eq!(split("---\nname: x\n----\n"), Err(FrontmatterError::Unterminated));
}

#[test]
fn the_block_closes_at_the_first_line_of_three_dashes() {
    let (yaml, body) = split("---\na: 1\n---\nb\n---\nc").unwrap().unwrap();
    assert_eq!(yaml, "a: 1\n");
    assert_eq!(body, "b\n---\nc");
    let (yaml, body) = split("---\n---").unwrap().unwrap();
    assert_eq!((yaml.as_str(), body.as_str()), ("", ""));
}

#[test]
fn an_event_is_only_its_frontmatter() {
    let yaml = "kind: idea_retired\ncreated: 2026-08-20T14:20:30.345678901Z\nidea: 20260820T142000-234567890\n";
    assert_eq!(
        compose(yaml, ""),
        "---\nkind: idea_retired\ncreated: 2026-08-20T14:20:30.345678901Z\nidea: 20260820T142000-234567890\n---\n"
    );
}

#[test]
fn what_is_written_reads_back() {
    for (yaml, body) in [
        ("name: Dungeon seeds\n", "Notes.\n"),
        ("", ""),
        ("a: 1\n", "\nstarts with a blank line"),
        ("a: 1\n", "---\nnot a block any more"),
    ] {
        let text = compose(yaml, body);
        assert_eq!(split(&text), Ok(Some((yaml.to_owned(), body.to_owned()))), "{text:?}");
    }
}

#[test]
fn a_block_without_a_final_newline_is_given_one() {
    assert_eq!(compose("a: 1", "b"), "---\na: 1\n---\nb");
}

#[test]
fn a_byte_order_mark_is_dropped() {
    assert_eq!(strip_bom("\u{feff}---\n"), "---\n");
    assert_eq!(strip_bom("plain"), "plain");
    assert_eq!(strip_bom(""), "");
}

#[test]
fn crlf_line_endings_open_and_close_a_block() {
    let (yaml, body) = split("---\r\ncreated: 2026-08-20T14:15:30Z\r\nowner: tim\r\n---\r\nHi.\r\n")
        .unwrap()
        .expect("a frontmatter block");
    assert_eq!(yaml, "created: 2026-08-20T14:15:30Z\r\nowner: tim\r\n");
    assert_eq!(body, "Hi.\r\n");

    let (yaml, body) = split("---\na: 1\r\n---\r\n\r\nb").unwrap().unwrap();
    assert_eq!((yaml.as_str(), body.as_str()), ("a: 1\r\n", "\r\nb"));

    let (yaml, body) = split("---\r\na: 1\r\n---").unwrap().unwrap();
    assert_eq!((yaml.as_str(), body.as_str()), ("a: 1\r\n", ""));

    // A lone carriage return ends no line.
    assert_eq!(split("---\ra: 1\n---\n"), Ok(None));
    assert_eq!(split("---\na: 1\n---\rb\n"), Err(FrontmatterError::Unterminated));
}

#[test]
fn a_blank_line_after_the_block_belongs_to_the_body() {
    let text = "---\nname: Dungeon seeds\n---\n\nWorking notes.\n";
    let (yaml, body) = split(text).unwrap().unwrap();
    assert_eq!(body, "\nWorking notes.\n");
    assert_eq!(compose(&yaml, &body), text);
}

use nv::parser::dotenv::{parse, parse_comments, remove_key, set_value};
use nv::parser::{ParsedComment, ParsedPair};

fn comment(key: &str, text: &str, lines: &[&str]) -> ParsedComment {
    ParsedComment {
        key: key.to_string(),
        comment: text.to_string(),
        lines: lines.iter().map(|l| l.to_string()).collect(),
    }
}

#[test]
fn parses_simple_and_exported() {
    let content = "# comment\nFOO=bar\nexport BAZ=qux\n\n";
    let pairs = parse(content);
    assert_eq!(pairs.len(), 2);
    assert_eq!(
        pairs[0],
        ParsedPair {
            key: "FOO".into(),
            value: "bar".into()
        }
    );
    assert_eq!(
        pairs[1],
        ParsedPair {
            key: "BAZ".into(),
            value: "qux".into()
        }
    );
}

#[test]
fn unquotes_values() {
    let pairs = parse("A=\"hello world\"\nB='single'\n");
    assert_eq!(pairs[0].value, "hello world");
    assert_eq!(pairs[1].value, "single");
}

#[test]
fn edits_in_place_preserving_comments() {
    let content = "# top\nFOO=old # inline\nBAR=keep\n";
    let out = set_value(content, "FOO", "new");
    assert_eq!(out, "# top\nFOO=new\nBAR=keep\n");
}

#[test]
fn preserves_export_and_indent() {
    let content = "  export FOO=old\n";
    let out = set_value(content, "FOO", "new");
    assert_eq!(out, "  export FOO=new\n");
}

#[test]
fn appends_missing_key() {
    let content = "FOO=bar\n";
    let out = set_value(content, "NEW", "value");
    assert_eq!(out, "FOO=bar\nNEW=value\n");
}

#[test]
fn quotes_values_with_spaces() {
    let out = set_value("", "KEY", "a b c");
    assert_eq!(out, "KEY=\"a b c\"\n");
}

#[test]
fn empty_value_written_bare() {
    let out = set_value("KEY=old\n", "KEY", "");
    assert_eq!(out, "KEY=\n");
}

#[test]
fn preserves_crlf() {
    let content = "FOO=old\r\nBAR=keep\r\n";
    let out = set_value(content, "FOO", "new");
    assert_eq!(out, "FOO=new\r\nBAR=keep\r\n");
}

#[test]
fn comments_block_above_key() {
    let content = "# DB connection\nDATABASE_URL=postgres://x\n";
    let comments = parse_comments(content);
    assert_eq!(comments.len(), 1);
    assert_eq!(comments[0], comment("DATABASE_URL", "DB connection", &["DB connection"]));
}

#[test]
fn comments_inline_on_own_line() {
    let comments = parse_comments("FOO=bar # the foo\n");
    assert_eq!(comments.len(), 1);
    assert_eq!(comments[0], comment("FOO", "the foo", &["the foo"]));
}

#[test]
fn comments_block_plus_inline_join() {
    let content = "# DB\n# uses TLS\nDATABASE_URL=x # production\n";
    let comments = parse_comments(content);
    assert_eq!(comments.len(), 1);
    assert_eq!(
        comments[0],
        comment("DATABASE_URL", "DB uses TLS production", &["DB", "uses TLS", "production"])
    );
}

#[test]
fn comments_blank_line_breaks_block() {
    let content = "# orphan\n\nFOO=bar\n";
    let comments = parse_comments(content);
    assert!(comments.is_empty());
}

#[test]
fn comments_key_without_comment_omitted() {
    let content = "# doc\nA=1\nB=2\n";
    let comments = parse_comments(content);
    assert_eq!(comments.len(), 1);
    assert_eq!(comments[0].key, "A");
}

#[test]
fn comments_exported_line() {
    let comments = parse_comments("export FOO=bar # exported\n");
    assert_eq!(comments.len(), 1);
    assert_eq!(comments[0], comment("FOO", "exported", &["exported"]));
}

#[test]
fn comments_hash_inside_value_is_not_inline() {
    let comments = parse_comments("FOO=abc#def\n");
    assert!(comments.is_empty());
}

#[test]
fn dotenv_comments_quoted_hash_ignored() {
    let comments = parse_comments("FOO=\"a # b\" # real\n");
    assert_eq!(comments.len(), 1);
    assert_eq!(comments[0].comment, "real");
}

#[test]
fn comments_commented_out_assignment_not_attached() {
    let content = "# REDIS_ENTERPRISE_HOST=redis-enterprise\nDATABASE_URL=x\n";
    let comments = parse_comments(content);
    assert!(comments.is_empty());
}

#[test]
fn comments_commented_out_assignment_breaks_block() {
    let content = "# DB connection\n# REDIS_ENTERPRISE_HOST=redis-enterprise\nDATABASE_URL=x\n";
    let comments = parse_comments(content);
    assert!(comments.is_empty());
}

#[test]
fn comments_prose_after_commented_out_assignment_attaches() {
    let content = "# REDIS_ENTERPRISE_HOST=redis-enterprise\n# DB connection\nDATABASE_URL=x\n";
    let comments = parse_comments(content);
    assert_eq!(comments.len(), 1);
    assert_eq!(comments[0], comment("DATABASE_URL", "DB connection", &["DB connection"]));
}

#[test]
fn comments_prose_not_an_assignment_attaches() {
    let content = "# Redis settings\nREDIS_HOST=localhost\n";
    let comments = parse_comments(content);
    assert_eq!(comments.len(), 1);
    assert_eq!(comments[0].comment, "Redis settings");
}

#[test]
fn dotenv_set_then_parse_reads_back_the_value() {
    let out = set_value("# head\nA=1\nB=two words\n", "B", "x y");
    let pairs = parse(&out);
    assert_eq!(pairs[1].key, "B");
    assert_eq!(pairs[1].value, "x y");
    assert_eq!(pairs[0].value, "1");
}

#[test]
fn remove_key_drops_only_that_line() {
    let out = remove_key("A=1\nB=2\nC=3\n", "B");
    assert_eq!(out, "A=1\nC=3\n");
    let untouched = remove_key("A=1\n", "Z");
    assert_eq!(untouched, "A=1\n");
}

#[test]
fn set_keeps_every_other_line_of_a_crlf_file() {
    let content = "# top\r\n\r\nA=1\r\n  export B=old # note\r\nC=3";
    let out = set_value(content, "B", "new value");
    assert_eq!(out, "# top\r\n\r\nA=1\r\n  export B=\"new value\"\r\nC=3");
    let before: Vec<&str> = content.lines().collect();
    let after: Vec<&str> = out.lines().collect();
    assert_eq!(before.len(), after.len());
    for (i, (a, b)) in before.iter().zip(after.iter()).enumerate() {
        if i != 3 {
            assert_eq!(a, b);
        }
    }
}

#[test]
fn set_after_a_bare_carriage_return_still_reads_back() {
    let out = set_value("A=1\r", "K", "v");
    assert_eq!(out, "A=1\r\nK=v");
    let pairs = parse(&out);
    assert_eq!(pairs[0].value, "1");
    assert_eq!(pairs[1].key, "K");
    assert_eq!(pairs[1].value, "v");
}

#[test]
fn set_reads_back_the_first_assignment_only() {
    let out = set_value("K=a\nK=b\n", "K", "c");
    assert_eq!(out, "K=c\nK=b\n");
    assert_eq!(parse(&out)[0].value, "c");
}

#[test]
fn remove_keeps_comments_blank_lines_and_later_duplicates() {
    let out = remove_key("# c\n\nK=1\nJ=2\nK=3\n", "K");
    assert_eq!(out, "# c\n\nJ=2\nK=3\n");
}

#[test]
fn remove_absent_key_returns_content_unchanged() {
    assert_eq!(remove_key("", "K"), "");
    assert_eq!(remove_key("A=1", "K"), "A=1");
    assert_eq!(nv::parser::remove_key("", nv::model::FileKind::Dotenv, "K"), "");
}

use tagstream::parser::{BaseParser, BaseSink};
use tagstream::tags::{ClosingTag, CommentTag, OpeningTag};

fn utf8(v: &[u8]) -> String {
    String::from_utf8(v.to_vec()).unwrap()
}

#[derive(Default)]
struct Rec {
    log: Vec<String>,
}

impl BaseSink for Rec {
    fn on_comment_tag(&mut self, node: CommentTag) -> Result<(), anyhow::Error> {
        self.log.push(format!("comment:{}", utf8(&node.value)));
        Ok(())
    }

    fn on_opening_tag(&mut self, node: OpeningTag) -> Result<(), anyhow::Error> {
        let mut out = format!("open:{}", utf8(&node.value));
        for (name, value) in &node.attrs {
            out.push(';');
            out.push_str(&utf8(name));
            out.push('=');
            match value {
                Some(v) => out.push_str(&utf8(v)),
                None => out.push_str("<none>"),
            }
        }
        self.log.push(out);
        Ok(())
    }

    fn on_closing_tag(&mut self, node: ClosingTag) -> Result<(), anyhow::Error> {
        self.log.push(format!("close:{}", utf8(&node.value)));
        Ok(())
    }
}

fn run_chunks(chunks: &[&str]) -> Vec<String> {
    let mut p = BaseParser::new(Rec::default());
    for c in chunks {
        p.feed(c.as_bytes()).unwrap();
    }
    p.stop().unwrap().log
}

fn run_whole(input: &str) -> Vec<String> {
    run_chunks(&[input])
}

fn run_bytewise(input: &str) -> Vec<String> {
    let mut p = BaseParser::new(Rec::default());
    for b in input.as_bytes() {
        p.feed(std::slice::from_ref(b)).unwrap();
    }
    p.stop().unwrap().log
}

#[test]
fn quote_masking() {
    assert_eq!(run_whole("<a href=\"x>y\">"), vec!["open:a;href=\"x>y\""]);
}

#[test]
fn single_quote_masking() {
    assert_eq!(run_whole("<a x='1>2'>"), vec!["open:a;x='1>2'"]);
}

#[test]
fn self_closing() {
    assert_eq!(run_whole("<br/>"), vec!["open:br", "close:br"]);
}

#[test]
fn self_closing_with_attribute() {
    assert_eq!(run_whole("<img src=\"a\"/>"), vec!["open:img;src=\"a\"", "close:img"]);
}

#[test]
fn closing_tag() {
    assert_eq!(run_whole("</div>"), vec!["close:div"]);
}

#[test]
fn comment_keeps_trailing_dashes() {
    assert_eq!(run_whole("<!--hi-->"), vec!["comment:hi--"]);
}

#[test]
fn comment_empty() {
    assert_eq!(run_whole("<!-->"), vec!["comment:"]);
}

#[test]
fn unterminated_tag_at_eof() {
    assert_eq!(run_whole("<div"), Vec::<String>::new());
}

#[test]
fn bare_attribute_name() {
    assert_eq!(run_whole("<input disabled>"), vec!["open:input;disabled=<none>"]);
}

#[test]
fn malformed_marker_yields_nothing() {
    assert_eq!(run_whole("<1 2>"), Vec::<String>::new());
}

#[test]
fn malformed_marker_consumes_span() {
    assert_eq!(run_whole("<1 2><p>"), vec!["open:p"]);
}

#[test]
fn doctype_is_recognized_but_unreported() {
    assert_eq!(run_whole("<!DOCTYPE html>"), Vec::<String>::new());
}

#[test]
fn malformed_closing_tag_yields_nothing() {
    assert_eq!(run_whole("</1x>"), Vec::<String>::new());
}

#[test]
fn multiple_attributes_in_order() {
    assert_eq!(
        run_whole("<img src=pic.png alt=\"A B\">"),
        vec!["open:img;src=pic.png;alt=\"A B\""],
    );
}

#[test]
fn duplicate_attributes_are_kept() {
    assert_eq!(run_whole("<a x=1 x=2>"), vec!["open:a;x=1;x=2"]);
}

#[test]
fn equals_inside_quotes_is_inert() {
    assert_eq!(run_whole("<a b=\"c=d\">"), vec!["open:a;b=\"c=d\""]);
}

#[test]
fn text_between_tags_is_ignored() {
    assert_eq!(
        run_whole("<p>hello \"world\"</p>"),
        vec!["open:p", "close:p"],
    );
}

#[test]
fn chunk_invariance_small() {
    let input = "<a href=\"x>y\"><br/>text<!--c--></div>";
    let whole = run_whole(input);
    assert_eq!(run_bytewise(input), whole);
    assert_eq!(run_chunks(&["<a href=\"x", ">y\"><br/>te", "xt<!--c-->", "</div>"]), whole);
    assert_eq!(run_chunks(&["", input, ""]), whole);
}

#[test]
fn chunk_invariance_past_block_width() {
    let mut input = String::new();
    for i in 0..20 {
        input.push_str(&format!("<p id={}>hello</p>", i));
    }
    let whole = run_whole(&input);
    assert!(whole.len() == 40);
    assert_eq!(run_bytewise(&input), whole);
    let mut p = BaseParser::new(Rec::default());
    for c in input.as_bytes().chunks(7) {
        p.feed(c).unwrap();
    }
    assert_eq!(p.stop().unwrap().log, whole);
}

#[test]
fn with_capacity_behaves_like_new() {
    let mut p = BaseParser::with_capacity(Rec::default(), 4096);
    p.feed("<br/>".as_bytes()).unwrap();
    assert_eq!(p.stop().unwrap().log, vec!["open:br", "close:br"]);
}

struct Failing;

impl BaseSink for Failing {
    fn on_opening_tag(&mut self, _node: OpeningTag) -> Result<(), anyhow::Error> {
        Err(anyhow::Error::msg("refused"))
    }
}

#[test]
fn sink_error_aborts_stop() {
    let mut p = BaseParser::new(Failing);
    p.feed("<p>".as_bytes()).unwrap();
    assert!(p.stop().is_err());
}

#[test]
fn sink_error_aborts_feed() {
    let mut p = BaseParser::new(Failing);
    let mut input = String::from("<p>");
    input.push_str(&"a".repeat(80));
    assert!(p.feed(input.as_bytes()).is_err());
}

#[test]
fn closing_half_of_self_closing_can_fail_alone() {
    struct CloseFails;
    impl BaseSink for CloseFails {
        fn on_closing_tag(&mut self, _node: ClosingTag) -> Result<(), anyhow::Error> {
            Err(anyhow::Error::msg("no closing"))
        }
    }
    let mut p = BaseParser::new(CloseFails);
    p.feed("<br/>".as_bytes()).unwrap();
    assert!(p.stop().is_err());
}

#[test]
fn repeated_equals_rebinds_last_attribute() {
    assert_eq!(run_whole("<a x=y=z>"), vec!["open:a;x=z"]);
}

#[test]
fn slash_stops_attribute_scan() {
    assert_eq!(run_whole("<br/ x=1>"), vec!["open:br", "close:br"]);
}

#[test]
fn slash_inside_quotes_is_inert() {
    assert_eq!(run_whole("<a x=\"a/b\">"), vec!["open:a;x=\"a/b\""]);
}

#[test]
fn whitespace_variants_split_tokens() {
    assert_eq!(run_whole("<a\tx\n=\r1>"), vec!["open:a;x=1"]);
}

#[test]
fn spaced_equals_binds_value() {
    assert_eq!(run_whole("<a x = y>"), vec!["open:a;x=y"]);
}

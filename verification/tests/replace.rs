use lazy_replace::{
    render_to_bytes, render_to_string, Bounded, LazyReplace, LazyReplaceDisplay, Render,
    ReplaceDisplay, ReplacedString, Sink, SinkError,
};

#[test]
fn replace_string() {
    assert_eq!(
        "onetwothree",
        "one!HERE!three".lazy_replace("!HERE!", "two").to_string()
    );
    assert_eq!(
        "onetwothree",
        "onetwo!HERE!".lazy_replace("!HERE!", "three").to_string()
    );
    assert_eq!(
        "onetwothreethree",
        "onetwo!HERE!!HERE!"
            .lazy_replace("!HERE!", "three")
            .to_string()
    );
}

#[test]
fn replace_display() {
    assert_eq!(
        "oneonetwothreethree",
        (
            "one!HERE!".lazy_replace("!HERE!", "tw"),
            "!HERE!three".lazy_replace("!HERE!", "o")
        )
            .replace_display("two", "one!HERE!three".lazy_replace("!HERE!", "two"))
            .to_string()
    );
}

#[test]
fn absent_needle_leaves_the_text() {
    assert_eq!(
        "one two three",
        "one two three".lazy_replace("!HERE!", "x").to_string()
    );
    assert_eq!("", "".lazy_replace("!HERE!", "x").to_string());
    assert_eq!("!HERE", "!HERE".lazy_replace("!HERE!", "x").to_string());
}

#[test]
fn match_at_start_and_whole_haystack() {
    assert_eq!("two-three", "!HERE!-three".lazy_replace("!HERE!", "two").to_string());
    assert_eq!("two", "!HERE!".lazy_replace("!HERE!", "two").to_string());
    assert_eq!("", "!HERE!".lazy_replace("!HERE!", "").to_string());
}

#[test]
fn matches_are_found_from_the_left_without_overlap() {
    assert_eq!("xa", "aaa".lazy_replace("aa", "x").to_string());
    assert_eq!("xx", "aaaa".lazy_replace("aa", "x").to_string());
    assert_eq!("axb", "aaabb".lazy_replace("aab", "x").to_string());
}

#[test]
fn replacement_may_hold_the_needle() {
    assert_eq!("aaaa", "aa".lazy_replace("a", "aa").to_string());
}

#[test]
fn text_beyond_ascii_is_kept() {
    assert_eq!(
        "gr\u{fc}n und bl\u{e4}u",
        "gr\u{fc}n und blau".lazy_replace("a", "\u{e4}").to_string()
    );
    assert_eq!(
        "na\u{ef}ve",
        "na\u{e9}ve".lazy_replace("\u{e9}", "\u{ef}").to_string()
    );
}

#[test]
fn long_haystack_is_replaced_throughout() {
    let mut haystack = String::new();
    let mut expected = String::new();
    for round in 0..40 {
        haystack.push_str("0123456789");
        expected.push_str("0123456789");
        if round % 3 == 0 {
            haystack.push_str("<needle>");
            expected.push_str("[]");
        }
    }
    assert_eq!(expected, haystack.lazy_replace("<needle>", "[]").to_string());
}

#[test]
fn owned_strings_make_views_too() {
    let haystack = String::from("one!HERE!three");
    let replacement = String::from("two");
    assert_eq!(
        "onetwothree",
        haystack.lazy_replace("!HERE!", replacement).to_string()
    );
}

#[test]
fn new_is_lazy_replace() {
    let by_new = ReplacedString::new("a-b-c", "-", "+");
    let by_trait = "a-b-c".lazy_replace("-", "+");
    assert_eq!(by_new.to_string(), by_trait.to_string());
    assert_eq!("a+b+c", by_new.to_string());

    let by_new = ReplaceDisplay::new("a-b-c", "-", "+");
    let by_trait = "a-b-c".replace_display("-", "+");
    assert_eq!(by_new.to_string(), by_trait.to_string());
}

#[test]
fn nested_views_compose() {
    let inner_text = "<b>".lazy_replace("b", "bold").to_string();
    assert_eq!("<bold>", inner_text);
    let in_sequence = "x A y A".lazy_replace("A", inner_text.as_str()).to_string();
    let composed = "x A y A"
        .lazy_replace("A", "<b>".lazy_replace("b", "bold"))
        .to_string();
    assert_eq!("x <bold> y <bold>", composed);
    assert_eq!(in_sequence, composed);
}

#[test]
fn rendering_twice_gives_the_same() {
    let view = "one!HERE!three".lazy_replace("!HERE!", "two");
    let first = render_to_bytes(&view);
    let second = render_to_bytes(&view);
    assert_eq!(first, second);
    assert_eq!(b"onetwothree".to_vec(), first);

    let (buffer, outcome) = view.render(Vec::new());
    assert_eq!(Ok(()), outcome);
    let (buffer, outcome) = view.render(buffer);
    assert_eq!(Ok(()), outcome);
    assert_eq!(b"onetwothreeonetwothree".to_vec(), buffer);
}

#[test]
fn a_view_renders_in_chunks() {
    let view = "one!HERE!three".lazy_replace("!HERE!", "two");
    let (sink, outcome) = view.render(Bounded::new(11));
    assert_eq!(Ok(()), outcome);
    assert_eq!(b"onetwothree", sink.as_slice());
    assert_eq!(0, sink.room());
}

#[test]
fn a_full_sink_stops_the_render() {
    let view = "one!HERE!three".lazy_replace("!HERE!", "two");
    let (sink, outcome) = view.render(Bounded::new(5));
    assert_eq!(Err(SinkError), outcome);
    assert_eq!(b"one", sink.as_slice());

    let (sink, outcome) = view.render(Bounded::new(7));
    assert_eq!(Err(SinkError), outcome);
    assert_eq!(b"onetwo", sink.as_slice());

    let (sink, outcome) = view.render(Bounded::new(0));
    assert_eq!(Err(SinkError), outcome);
    assert_eq!(b"", sink.as_slice());
}

#[test]
fn a_full_sink_stops_a_streamed_render() {
    let view = ("one", "!HERE!three").replace_display("!HERE!", "two");
    let (sink, outcome) = view.render(Bounded::new(4));
    assert_eq!(Err(SinkError), outcome);
    assert_eq!(b"one", sink.as_slice());

    let (sink, outcome) = view.render(Bounded::new(6));
    assert_eq!(Err(SinkError), outcome);
    assert_eq!(b"onetwo", sink.as_slice());

    let (sink, outcome) = view.render(Bounded::new(11));
    assert_eq!(Ok(()), outcome);
    assert_eq!(b"onetwothree", sink.as_slice());
}

#[test]
fn pairs_and_strings_render_as_their_text() {
    assert_eq!(b"one".to_vec(), render_to_bytes(&"one"));
    assert_eq!(b"onetwo".to_vec(), render_to_bytes(&("one", String::from("two"))));
    assert_eq!("onetwothree", render_to_string(&(("one", "two"), "three")));
    assert_eq!("\u{e9}t\u{e9}", render_to_string(&("\u{e9}t", "\u{e9}")));
}

#[test]
fn a_streamed_view_finds_a_needle_that_begins_a_chunk() {
    assert_eq!(
        "onetwothree",
        ("one", "!HERE!three").replace_display("!HERE!", "two").to_string()
    );
    assert_eq!(
        "onetwothree",
        (("one", "!HE"), ("RE!", "three"))
            .replace_display("!HERE!", "two")
            .to_string()
    );
}

#[test]
fn a_streamed_view_passes_a_needle_inside_a_chunk() {
    assert_eq!(
        "one!HERE!three",
        "one!HERE!three".replace_display("!HERE!", "two").to_string()
    );
}

#[test]
fn a_streamed_view_keeps_an_unfinished_match() {
    assert_eq!(
        "one!HE",
        ("one", "!HE").replace_display("!HERE!", "two").to_string()
    );
    assert_eq!("!HERE", "!HERE".replace_display("!HERE!", "two").to_string());
}

#[test]
fn lists_render_as_their_items() {
    assert_eq!(b"".to_vec(), render_to_bytes(&Vec::<&str>::new()));
    assert_eq!(b"onetwo".to_vec(), render_to_bytes(&vec!["one", "two"]));
    assert_eq!(
        "onetwothree",
        vec!["one", "!HE", "RE!", "three"]
            .replace_display("!HERE!", vec!["t", "wo"])
            .to_string()
    );
    let (sink, outcome) = vec!["one", "two", "three"].render(Bounded::new(7));
    assert_eq!(Err(SinkError), outcome);
    assert_eq!(b"onetwo", sink.as_slice());
}

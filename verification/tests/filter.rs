use lazy_replace::{Bounded, LazyReplace, LazyReplaceDisplay, ReplaceWriter, Sink, SinkError};

fn stream(needle: &str, replacement: &str, chunks: &[&str]) -> Vec<u8> {
    let mut filter = ReplaceWriter::new(Vec::new(), needle, replacement);
    for chunk in chunks {
        let (next, outcome) = filter.write(chunk.as_bytes());
        assert_eq!(Ok(()), outcome);
        filter = next;
    }
    let (out, outcome) = filter.finish();
    assert_eq!(Ok(()), outcome);
    out
}

#[test]
fn needle_as_one_chunk() {
    assert_eq!(
        b"onetwothree".to_vec(),
        stream("!HERE!", "two", &["one", "!HERE!", "three"])
    );
}

#[test]
fn needle_split_at_every_offset() {
    let needle = "!HERE!";
    for cut in 1..needle.len() {
        let chunks = ["one", &needle[..cut], &needle[cut..], "three"];
        assert_eq!(b"onetwothree".to_vec(), stream(needle, "two", &chunks));
    }
}

#[test]
fn needle_split_at_every_pair_of_offsets() {
    let needle = "!HERE!";
    for first in 1..needle.len() {
        for second in first + 1..needle.len() {
            let chunks = [
                "one",
                &needle[..first],
                &needle[first..second],
                &needle[second..],
                "three",
            ];
            assert_eq!(b"onetwothree".to_vec(), stream(needle, "two", &chunks));
        }
    }
}

#[test]
fn needle_byte_by_byte() {
    assert_eq!(
        b"onetwothree".to_vec(),
        stream("!HERE!", "two", &["one", "!", "H", "E", "R", "E", "!", "three"])
    );
}

#[test]
fn rest_of_the_chunk_after_a_match_is_taken_too() {
    assert_eq!(
        b"onetwothree".to_vec(),
        stream("!HERE!", "two", &["one", "!HERE!three"])
    );
    assert_eq!(
        b"onetwothree".to_vec(),
        stream("!HERE!", "two", &["one", "!HE", "RE!three"])
    );
}

#[test]
fn two_matches_in_one_chunk() {
    assert_eq!(
        b"onethreethree".to_vec(),
        stream("!HERE!", "three", &["one", "!HERE!!HERE!"])
    );
    assert_eq!(
        b"xxx-".to_vec(),
        stream("ab", "x", &["ababab-"])
    );
}

#[test]
fn rest_of_the_chunk_may_begin_the_next_match() {
    assert_eq!(
        b"onetwotwothree".to_vec(),
        stream("!HERE!", "two", &["one", "!HERE!!HE", "RE!", "three"])
    );
}

#[test]
fn needle_inside_a_chunk_is_passed() {
    assert_eq!(
        b"one!HERE!three".to_vec(),
        stream("!HERE!", "two", &["one!HERE!three"])
    );
    assert_eq!(
        b"one!HERE!three".to_vec(),
        stream("!HERE!", "two", &["one!", "HERE!three"])
    );
}

#[test]
fn needle_that_begins_while_a_match_is_tried_is_passed() {
    assert_eq!(b"aaab".to_vec(), stream("aab", "x", &["a", "a", "ab"]));
    assert_eq!(b"aaab".to_vec(), stream("aab", "x", &["a", "aab"]));
}

#[test]
fn failed_match_is_handed_on_as_it_was() {
    assert_eq!(
        b"one!HExyzthree".to_vec(),
        stream("!HERE!", "two", &["one", "!HE", "xyz", "three"])
    );
    assert_eq!(
        b"!HERE?".to_vec(),
        stream("!HERE!", "two", &["!", "H", "E", "R", "E", "?"])
    );
}

#[test]
fn unfinished_match_is_flushed_at_the_end() {
    assert_eq!(b"one!HE".to_vec(), stream("!HERE!", "two", &["one", "!HE"]));
    assert_eq!(b"!HERE".to_vec(), stream("!HERE!", "two", &["!", "HERE"]));
}

#[test]
fn text_without_the_needle_passes() {
    assert_eq!(
        b"one two three".to_vec(),
        stream("!HERE!", "x", &["one", " two ", "three"])
    );
    assert_eq!(b"".to_vec(), stream("!HERE!", "x", &[]));
}

#[test]
fn empty_chunks_change_nothing() {
    assert_eq!(
        b"onetwothree".to_vec(),
        stream("!HERE!", "two", &["", "one", "", "!HE", "", "RE!", "", "three", ""])
    );
}

#[test]
fn pending_shows_what_is_held_back() {
    let filter = ReplaceWriter::new(Vec::new(), "!HERE!", "two");
    assert_eq!(b"", filter.pending());
    let (filter, outcome) = filter.write(b"!HE");
    assert_eq!(Ok(()), outcome);
    assert_eq!(b"!HE", filter.pending());
    let (filter, outcome) = filter.write(b"RE");
    assert_eq!(Ok(()), outcome);
    assert_eq!(b"!HERE", filter.pending());
    let (filter, outcome) = filter.write(b"!");
    assert_eq!(Ok(()), outcome);
    assert_eq!(b"", filter.pending());
    assert_eq!(b"two".to_vec(), filter.into_inner());
}

#[test]
fn into_inner_drops_what_is_held_back() {
    let filter = ReplaceWriter::new(Vec::new(), "!HERE!", "two");
    let (filter, _) = filter.write(b"one");
    let (filter, _) = filter.write(b"!HE");
    assert_eq!(b"one".to_vec(), filter.into_inner());
}

#[test]
fn refusal_of_the_inner_sink_comes_back() {
    let filter = ReplaceWriter::new(Bounded::new(4), "!HERE!", "two");
    let (filter, outcome) = filter.write(b"one");
    assert_eq!(Ok(()), outcome);
    let (filter, outcome) = filter.write(b"!HERE!");
    assert_eq!(Err(SinkError), outcome);
    assert_eq!(b"", filter.pending());
    assert_eq!(b"one", filter.into_inner().as_slice());
}

#[test]
fn refusal_while_a_failed_match_is_handed_on() {
    let filter = ReplaceWriter::new(Bounded::new(4), "!HERE!", "two");
    let (filter, outcome) = filter.write(b"!HE");
    assert_eq!(Ok(()), outcome);
    let (filter, outcome) = filter.write(b"xyz");
    assert_eq!(Err(SinkError), outcome);
    assert_eq!(b"", filter.pending());
    assert_eq!(b"!HE", filter.into_inner().as_slice());

    let filter = ReplaceWriter::new(Bounded::new(2), "!HERE!", "two");
    let (filter, outcome) = filter.write(b"!HE");
    assert_eq!(Ok(()), outcome);
    let (filter, outcome) = filter.write(b"xyz");
    assert_eq!(Err(SinkError), outcome);
    assert_eq!(b"", filter.pending());
    assert_eq!(b"", filter.into_inner().as_slice());
}

#[test]
fn refusal_at_the_end_of_the_stream() {
    let filter = ReplaceWriter::new(Bounded::new(2), "!HERE!", "two");
    let (filter, outcome) = filter.write(b"!HE");
    assert_eq!(Ok(()), outcome);
    let (sink, outcome) = filter.finish();
    assert_eq!(Err(SinkError), outcome);
    assert_eq!(b"", sink.as_slice());
}

#[test]
fn strings_are_written_as_their_bytes() {
    let filter = ReplaceWriter::new(Vec::new(), "\u{e9}t\u{e9}", "summer");
    let (filter, outcome) = filter.write_str("l'");
    assert_eq!(Ok(()), outcome);
    let (filter, outcome) = filter.write_str("\u{e9}");
    assert_eq!(Ok(()), outcome);
    assert_eq!("\u{e9}".as_bytes(), filter.pending());
    let (filter, outcome) = filter.write_str("t\u{e9}!");
    assert_eq!(Ok(()), outcome);
    let (out, outcome) = filter.finish();
    assert_eq!(Ok(()), outcome);
    assert_eq!("l'summer!".as_bytes().to_vec(), out);

    let (sink, outcome) = Bounded::new(3).write_str("\u{e9}t\u{e9}");
    assert_eq!(Err(SinkError), outcome);
    let (sink, outcome) = sink.write_str("\u{e9}t");
    assert_eq!(Ok(()), outcome);
    assert_eq!(0, sink.room());
}

#[test]
fn filters_nest() {
    let inner = ReplaceWriter::new(Vec::new(), "two", "2");
    let outer = ReplaceWriter::new(inner, "!HERE!", "two");
    let (outer, outcome) = outer.write(b"one");
    assert_eq!(Ok(()), outcome);
    let (outer, outcome) = outer.write(b"!HE");
    assert_eq!(Ok(()), outcome);
    let (outer, outcome) = outer.write(b"RE!three");
    assert_eq!(Ok(()), outcome);
    let (inner, outcome) = outer.finish();
    assert_eq!(Ok(()), outcome);
    let (out, outcome) = inner.finish();
    assert_eq!(Ok(()), outcome);
    assert_eq!(b"one2three".to_vec(), out);
}

#[test]
fn every_way_of_cutting_a_haystack() {
    let haystack = "one!HERE!three";
    let needle = "!HERE!";
    let at = 3;
    let whole = haystack.lazy_replace(needle, "two").to_string();
    assert_eq!("onetwothree", whole);
    for cuts in 0u32..(1 << (haystack.len() - 1)) {
        let mut chunks: Vec<&str> = Vec::new();
        let mut start = 0;
        for position in 1..haystack.len() {
            if cuts & (1 << (position - 1)) != 0 {
                chunks.push(&haystack[start..position]);
                start = position;
            }
        }
        chunks.push(&haystack[start..]);
        let streamed = stream(needle, "two", &chunks);
        if cuts & (1 << (at - 1)) != 0 {
            assert_eq!(whole.as_bytes().to_vec(), streamed);
        } else {
            assert_eq!(haystack.as_bytes().to_vec(), streamed);
        }
        assert_eq!(
            streamed,
            chunks.replace_display(needle, "two").to_string().into_bytes()
        );
    }
}

#[test]
fn replacement_that_is_the_needle_changes_nothing() {
    let haystack = "a!HERE!b!HERE!!H";
    for cuts in 0u32..(1 << (haystack.len() - 1)) {
        let mut chunks: Vec<&str> = Vec::new();
        let mut start = 0;
        for position in 1..haystack.len() {
            if cuts & (1 << (position - 1)) != 0 {
                chunks.push(&haystack[start..position]);
                start = position;
            }
        }
        chunks.push(&haystack[start..]);
        assert_eq!(
            haystack.as_bytes().to_vec(),
            stream("!HERE!", "!HERE!", &chunks)
        );
    }
}

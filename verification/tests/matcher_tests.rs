use minihttp::matcher::SearchBytes;

#[test]
fn test_search_bytes() {
    let mut sb = SearchBytes::new(b"666".to_vec()).unwrap();
    assert_eq!(sb.search(&b'6'), None);
    assert_eq!(sb.search(&b'6'), None);
    assert_eq!(sb.search(&b'6'), Some(0));
    assert_eq!(sb.search(&b'6'), Some(0));
    sb.reset();
    assert_eq!(sb.search(&b'0'), None);
    assert_eq!(sb.search(&b'6'), None);
    assert_eq!(sb.search(&b'6'), None);
    assert_eq!(sb.search(&b'6'), Some(1));
    assert_eq!(sb.search(&b'6'), Some(1));
}

#[test]
fn empty_pattern_is_refused() {
    assert!(SearchBytes::new(Vec::new()).is_err());
}

#[test]
fn byte_at_a_time_finds_first_occurrence() {
    // Pattern "666" in "ab666666": the first occurrence starts at 2,
    // whether the stream arrives byte by byte or in any chunking.
    let mut sb = SearchBytes::new(b"666".to_vec()).unwrap();
    let stream = b"ab666666";
    let mut reported = None;
    for b in stream {
        reported = sb.search(b);
        if reported.is_some() {
            break;
        }
    }
    assert_eq!(reported, Some(2));
    assert_eq!(stream.windows(3).position(|w| w == b"666"), Some(2));
}

#[test]
fn chunk_feed_equals_byte_feed() {
    // Feeding a stream as one chunk and feeding it byte by byte give
    // the same result, for matching and non-matching streams alike.
    for stream in [&b"ab666666"[..], b"no match here", b"66", b"x6665"] {
        let mut chunked = SearchBytes::new(b"666".to_vec()).unwrap();
        let mut stepped = SearchBytes::new(b"666".to_vec()).unwrap();
        let many = chunked.search_many(stream);
        let mut single = None;
        for b in stream {
            single = stepped.search(b);
            if single.is_some() {
                break;
            }
        }
        assert_eq!(many, single.or(stepped.result()));
        assert_eq!(chunked.result(), stepped.result());
    }
}

#[test]
fn single_byte_pattern_first_occurrence() {
    let mut sb = SearchBytes::new(b":".to_vec()).unwrap();
    let stream = b"name: value";
    let mut reported = None;
    for b in stream {
        reported = sb.search(b);
        if reported.is_some() {
            break;
        }
    }
    assert_eq!(reported, Some(4));
}

#[test]
fn latched_offset_is_stable_until_reset() {
    // Once a match is reported, every further feed returns the same
    // offset; reset hands back the running count and starts over.
    let mut sb = SearchBytes::new(b"xy".to_vec()).unwrap();
    assert_eq!(sb.search(&b'a'), None);
    assert_eq!(sb.search(&b'x'), None);
    assert_eq!(sb.search(&b'y'), Some(1));
    assert_eq!(sb.search(&b'z'), Some(1));
    assert_eq!(sb.search(&b'x'), Some(1));
    assert_eq!(sb.search(&b'q'), Some(1));
    let prev = sb.reset();
    assert_eq!(prev, 3);
    assert_eq!(sb.result(), None);
    assert_eq!(sb.search(&b'x'), None);
    assert_eq!(sb.search(&b'y'), Some(0));
}

#[test]
fn reset_returns_count_and_zeroes_state() {
    let mut sb = SearchBytes::new(b"abc".to_vec()).unwrap();
    assert_eq!(sb.search(&b'a'), None);
    assert_eq!(sb.search(&b'b'), None);
    let prev = sb.reset();
    assert_eq!(prev, 2);
    let prev2 = sb.reset();
    assert_eq!(prev2, 0);
    assert_eq!(sb.result(), None);
}

#[test]
fn non_uniform_pattern_can_pass_over_an_occurrence() {
    // The restart rule is a deliberate simplification: the byte that
    // broke a partial match is never re-tested, so a matcher for
    // CRLF fed CR CR LF never sees the occurrence starting at 1.
    // First-occurrence behaviour is only guaranteed for patterns
    // whose bytes are all equal.
    let mut sb = SearchBytes::new(b"\r\n".to_vec()).unwrap();
    assert_eq!(sb.search(&b'\r'), None);
    assert_eq!(sb.search(&b'\r'), None);
    assert_eq!(sb.search(&b'\n'), None);
    assert_eq!(sb.result(), None);
}

#[test]
fn mismatch_drops_prefix_without_retesting() {
    // The restart rule does not re-test the mismatching byte, so the
    // occurrence of "xy" starting inside a dropped prefix is missed:
    // feeding "xxy" to a matcher for "xy" reports the match at 1 only
    // because 'x' repeats; feeding "x" then "z" then "xy" matches at 2.
    let mut sb = SearchBytes::new(b"xy".to_vec()).unwrap();
    assert_eq!(sb.search(&b'x'), None);
    assert_eq!(sb.search(&b'z'), None);
    assert_eq!(sb.search(&b'x'), None);
    assert_eq!(sb.search(&b'y'), Some(2));
}

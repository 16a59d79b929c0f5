//! Names of lines and files.

use sztools::hashing::{
    content_hash, format_hash, parse_content_hash, parse_hash_prefix, parse_hash_width,
    HashingWriter, HASH_CHARS, HASH_CHARS_MIN,
};

#[test]
fn matches_a_name_against_the_hash_it_renders_from() {
    for seed in 0..64u64 {
        let hash = content_hash(&seed.to_le_bytes());
        for width in HASH_CHARS_MIN..=HASH_CHARS {
            let name = format_hash(hash, width);
            let prefix = parse_hash_prefix(&name).expect("a rendered name parses");
            assert!(prefix.matches(hash), "`{name}` did not match {hash:#018x}");
            // And it declines a hash that differs inside the bits it pins.
            assert!(!prefix.matches(hash ^ (1 << 63)));
        }
    }
}

#[test]
fn pins_five_bits_for_every_character_of_a_name() {
    let hash = content_hash(b"    return 0;\n");
    for width in HASH_CHARS_MIN..=HASH_CHARS {
        let name = format_hash(hash, width);
        let pinned = parse_hash_prefix(&name)
            .expect("a rendered name parses")
            .mask
            .count_ones() as usize;
        assert_eq!(pinned, (5 * width).min(u64::BITS as usize), "`{name}`");
    }
}

#[test]
fn reads_a_name_in_either_case() {
    let lower = parse_hash_prefix("6vzvxbws").unwrap();
    assert_eq!(parse_hash_prefix("6VZVXBWS").unwrap(), lower);
}

#[test]
fn refuses_a_name_that_could_never_have_been_printed() {
    // Each of these is a different mistake, and the message has to say which.
    for (name, expected) in [
        ("abc", "4 to 13"),
        ("abcdefghijklmn", "4 to 13"),
        ("6vzvxbwi", "not in the alphabet"),
        ("zzzzzzzzzzzzz", "last character"),
    ] {
        let error = parse_hash_prefix(name).expect_err("`{name}` must not parse");
        assert!(
            error.contains(expected),
            "`{name}` reported `{error}`, which does not mention `{expected}`"
        );
    }
}

#[test]
fn renders_a_hash_at_the_width_asked_for() {
    assert_eq!(format_hash(0, HASH_CHARS), "0000000000000");
    // Every bit set. Twelve characters of five bits each, then the last four against the padding
    // zero, which is why the closing symbol is `y` (30) rather than `z` (31).
    assert_eq!(format_hash(u64::MAX, HASH_CHARS), "zzzzzzzzzzzzy");
    for width in 1..=HASH_CHARS {
        assert_eq!(format_hash(0x0123_4567_89ab_cdef, width).len(), width);
    }
}

#[test]
fn renders_a_short_hash_as_a_prefix_of_the_long_one() {
    let whole = format_hash(0x0123_4567_89ab_cdef, HASH_CHARS);
    for width in HASH_CHARS_MIN..=HASH_CHARS {
        assert_eq!(format_hash(0x0123_4567_89ab_cdef, width), &whole[..width]);
    }
}

#[test]
fn never_renders_a_character_a_reader_confuses() {
    for value in 0..64u64 {
        let rendered = format_hash(value.wrapping_mul(0x9E37_79B9_7F4A_7C15), HASH_CHARS);
        assert!(
            !rendered.contains(['i', 'l', 'o', 'u']),
            "{rendered} carries a character Crockford's alphabet drops"
        );
    }
}

#[test]
fn names_the_same_content_the_same_wherever_it_sits() {
    assert_eq!(
        content_hash(b"    return 0;\n"),
        content_hash(b"    return 0;\n")
    );
    assert_ne!(
        content_hash(b"    return 0;\n"),
        content_hash(b"    return 1;\n")
    );
    // An empty line is nameable rather than a special case.
    assert_eq!(format_hash(content_hash(b"\n"), 8).len(), 8);
}

#[test]
fn hashes_a_stream_as_one_slice() {
    let pieces: [&[u8]; 4] = [b"alpha\n", b"", b"beta\ngamma\n", b"delta"];
    let mut hashing = HashingWriter::new();
    for piece in pieces {
        hashing.write_all(piece);
    }
    let joined: Vec<u8> = pieces.concat();
    assert_eq!(hashing.digest(), content_hash(&joined));
}

#[test]
fn hashes_an_empty_stream_as_an_empty_slice() {
    let hashing = HashingWriter::new();
    assert_eq!(hashing.digest(), content_hash(b""));
}

#[test]
fn parses_a_content_hash_token_in_either_case() {
    assert_eq!(
        parse_content_hash("0000006ynpzey").unwrap(),
        parse_content_hash("0000006YNPZEY").unwrap()
    );
    let value = content_hash(b"round trip");
    let token = format_hash(value, HASH_CHARS);
    assert_eq!(parse_content_hash(&token).unwrap(), value);
}

#[test]
fn refuses_a_content_hash_that_is_not_a_whole_name() {
    for token in [
        "",
        "6ynpzey",
        "0000006ynpzeyy",
        "0000006ynpzei",
        "0000006ynpzez",
    ] {
        assert!(
            parse_content_hash(token).is_err(),
            "`{token}` must not parse as a content hash"
        );
    }
}

#[test]
fn pins_the_hash_of_known_bytes() {
    // Deliberately brittle: every name that was ever printed is a promise about the hash.
    assert_eq!(format_hash(content_hash(b""), HASH_CHARS), "0sq616b9mh94c");
    assert_eq!(
        format_hash(content_hash(b"the quick brown fox\n"), HASH_CHARS),
        "vhk9ejjrdp5sm"
    );
    assert_eq!(
        format_hash(content_hash(b"    return 0;\n"), HASH_CHARS),
        "wzehkqztd78hg"
    );
}

#[test]
fn reads_a_hash_width_within_the_widths_a_name_can_have() {
    assert_eq!(parse_hash_width("4"), Ok(4));
    assert_eq!(parse_hash_width("13"), Ok(13));
    assert!(parse_hash_width("3").is_err());
    assert!(parse_hash_width("14").is_err());
    assert!(parse_hash_width("eight").is_err());
}

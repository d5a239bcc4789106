use compact_str::arc::{utf8_len, ArcString};
use compact_str::heap::ArcStringInner;
use compact_str::IntoRepr;

#[test]
fn test_empty() {
    let empty = "";
    let arc_str = ArcString::from(empty);

    assert_eq!(arc_str.as_str(), empty);
    assert_eq!(arc_str.len(), empty.len());
}

#[test]
fn test_long() {
    let long = "aaabbbcccdddeeefff\n
                    ggghhhiiijjjkkklll\n
                    mmmnnnooopppqqqrrr\n
                    ssstttuuuvvvwwwxxx\n
                    yyyzzz000111222333\n
                    444555666777888999000";
    let arc_str = ArcString::from(long);

    assert_eq!(arc_str.as_str(), long);
    assert_eq!(arc_str.len(), long.len());
}

#[test]
fn test_clone_and_drop() {
    let example = "hello world!";
    let arc_str_1 = ArcString::from(example);
    let arc_str_2 = arc_str_1.clone();

    drop(arc_str_1);

    assert_eq!(arc_str_2.as_str(), example);
    assert_eq!(arc_str_2.len(), example.len());
}

#[test]
fn test_sanity() {
    let example = "hello world!";
    let arc_str = ArcString::from(example);

    assert_eq!(arc_str.as_str(), example);
    assert_eq!(arc_str.len(), example.len());
}

#[test]
fn test_push() {
    let example = "hello world";
    let mut arc_str = ArcString::from(example);
    arc_str.push('!');

    assert_eq!(arc_str.as_str(), "hello world!");
    assert_eq!(arc_str.len(), 12);
}

#[test]
fn test_pop() {
    let example = "hello";
    let mut arc_str = ArcString::from(example);

    assert_eq!(arc_str.pop(), Some('o'));
    assert_eq!(arc_str.pop(), Some('l'));
    assert_eq!(arc_str.pop(), Some('l'));

    assert_eq!(arc_str.as_str(), "he");
    assert_eq!(arc_str.len(), 2);
}

#[test]
fn test_push_str() {
    let example = "hello";
    let mut arc_str = ArcString::from(example);

    arc_str.push_str(" world!");

    assert_eq!(arc_str.as_str(), "hello world!");
    assert_eq!(arc_str.len(), 12);
}

#[test]
fn test_extend_chars() {
    let example = "hello";
    let mut arc_str = ArcString::from(example);

    arc_str.extend_chars(" world!".chars().collect());

    assert_eq!(arc_str.as_str(), "hello world!");
    assert_eq!(arc_str.len(), 12);
}

#[test]
fn test_extend_strs() {
    let example = "hello";
    let mut arc_str = ArcString::from(example);

    let words = vec![" ", "world!", "my name is", " compact", "_str"];
    arc_str.extend_strs(words);

    assert_eq!(arc_str.as_str(), "hello world!my name is compact_str");
    assert_eq!(arc_str.len(), 34);
}

#[test]
fn test_into_repr_bool() {
    let t = true;
    let repr = t.into_repr();
    assert_eq!(repr.as_str(), t.to_string());

    let f = false;
    let repr = f.into_repr();
    assert_eq!(repr.as_str(), f.to_string());
}

#[test]
fn into_repr_char_matches_to_string() {
    for c in ['a', 'é', '日', '🦀', '\0'] {
        let repr = c.into_repr();
        assert_eq!(repr.as_str(), c.to_string());
        assert_eq!(repr.len(), c.len_utf8());
    }
}

#[test]
fn new_hello_no_extra() {
    let h = ArcString::new("hello", 0);
    assert_eq!(h.len(), 5);
    assert_eq!(h.capacity(), 5);
    assert_eq!(h.as_str(), "hello");
    assert_eq!(h.as_slice(), b"hello");
}

#[test]
fn new_with_extra_capacity() {
    let h = ArcString::new("abc", 7);
    assert_eq!(h.len(), 3);
    assert_eq!(h.capacity(), 10);
    assert_eq!(h.as_str(), "abc");
}

#[test]
fn push_bang_onto_hello() {
    let mut h = ArcString::new("hello", 0);
    h.push('!');
    assert_eq!(h.as_str(), "hello!");
    assert_eq!(h.len(), 6);
}

#[test]
fn clone_then_push_str_is_private() {
    let mut h = ArcString::new("hello", 0);
    let c = h.clone();
    h.push_str(" world");
    assert_eq!(h.as_str(), "hello world");
    assert_eq!(c.as_str(), "hello");
}

#[test]
fn clone_then_push_on_clone_is_private() {
    let h = ArcString::new("hello", 10);
    let mut c = h.clone();
    // room is there, so only the copy-on-write gate decides where the write goes
    c.push('!');
    assert_eq!(c.as_str(), "hello!");
    assert_eq!(h.as_str(), "hello");
    assert_eq!(c.capacity(), 15);
    assert_eq!(h.capacity(), 15);
}

#[test]
fn unique_handle_writes_in_place() {
    let mut h = ArcString::new("ab", 4);
    h.push('c');
    h.push_str("de");
    assert_eq!(h.as_str(), "abcde");
    assert_eq!(h.capacity(), 6);
}

#[test]
fn empty_handle() {
    let mut h = ArcString::new("", 0);
    assert_eq!(h.len(), 0);
    assert_eq!(h.as_str(), "");
    assert_eq!(h.pop(), None);
    assert_eq!(h.len(), 0);
}

#[test]
fn extend_empty_with_strs() {
    let mut h = ArcString::new("", 0);
    h.extend_strs(vec![" ", "world!", "my name is", " compact", "_str"]);
    assert_eq!(h.as_str(), " world!my name is compact_str");
}

#[test]
fn extend_with_nothing() {
    let mut h = ArcString::new("x", 0);
    h.extend_strs(Vec::new());
    h.extend_chars(Vec::new());
    assert_eq!(h.as_str(), "x");
    assert_eq!(h.capacity(), 1);
}

#[test]
fn pop_multibyte() {
    let mut h = ArcString::new("aé日🦀", 0);
    assert_eq!(h.pop(), Some('🦀'));
    assert_eq!(h.as_str(), "aé日");
    assert_eq!(h.pop(), Some('日'));
    assert_eq!(h.pop(), Some('é'));
    assert_eq!(h.as_str(), "a");
    assert_eq!(h.len(), 1);
    assert_eq!(h.pop(), Some('a'));
    assert_eq!(h.pop(), None);
}

#[test]
fn pop_then_push_restores() {
    for text in ["hello", "héllo", "日本", "x🦀"] {
        let mut h = ArcString::new(text, 0);
        let c = h.pop().unwrap();
        h.push(c);
        assert_eq!(h.as_str(), text);
        assert_eq!(h.len(), text.len());
    }
}

#[test]
fn push_encodes_multibyte_chars() {
    let mut h = ArcString::new("", 0);
    h.push('é');
    assert_eq!(h.as_slice(), &[0xc3, 0xa9]);
    h.push('🦀');
    assert_eq!(h.as_slice(), &[0xc3, 0xa9, 0xf0, 0x9f, 0xa6, 0x80]);
    assert_eq!(h.as_str(), "é🦀");
}

#[test]
fn pop_does_not_disturb_clone() {
    let mut h = ArcString::new("hello", 0);
    let c = h.clone();
    assert_eq!(h.pop(), Some('o'));
    h.push('p');
    assert_eq!(h.as_str(), "hellp");
    assert_eq!(c.as_str(), "hello");
}

#[test]
fn reserve_exact_values() {
    // fits already: nothing changes
    let mut h = ArcString::new("abcd", 4);
    h.reserve(4);
    assert_eq!(h.capacity(), 8);
    // amortized target wins: 8 + 8 / 2 = 12 > 8 + 5
    h.reserve(5);
    assert_eq!(h.capacity(), 13);
    assert_eq!(h.as_str(), "abcd");
    // one and a half times wins
    let mut g = ArcString::new("abcdefghij", 0);
    g.reserve(1);
    assert_eq!(g.capacity(), 15);
    // exact requirement wins
    let mut k = ArcString::new("ab", 0);
    k.reserve(10);
    assert_eq!(k.capacity(), 12);
    assert_eq!(k.as_str(), "ab");
}

#[test]
fn growth_one_byte_at_a_time() {
    let mut h = ArcString::new("", 0);
    let mut expected = String::new();
    let mut moves = 0;
    let mut last_capacity = h.capacity();
    for i in 0..10_000u32 {
        let c = (b'a' + (i % 26) as u8) as char;
        h.push(c);
        expected.push(c);
        if h.capacity() != last_capacity {
            moves += 1;
            last_capacity = h.capacity();
        }
    }
    assert_eq!(h.as_str(), expected);
    assert_eq!(h.len(), 10_000);
    assert!(moves <= 30, "too many reallocations: {}", moves);
}

#[test]
fn utf8_len_values() {
    assert_eq!(utf8_len('a'), 1);
    assert_eq!(utf8_len('é'), 2);
    assert_eq!(utf8_len('日'), 3);
    assert_eq!(utf8_len('🦀'), 4);
}

#[test]
fn block_layout_is_header_plus_buffer_padded() {
    let word = std::mem::size_of::<usize>();
    let l = ArcStringInner::layout(0);
    assert_eq!(l.size, 2 * word);
    assert_eq!(l.align, word);
    let l = ArcStringInner::layout(1);
    assert_eq!(l.size, 3 * word);
    let l = ArcStringInner::layout(word);
    assert_eq!(l.size, 3 * word);
    let l = ArcStringInner::layout(word + 1);
    assert_eq!(l.size, 4 * word);
}

#[test]
fn block_with_capacity_is_zeroed() {
    let mut b = ArcStringInner::with_capacity(5);
    assert_eq!(b.capacity(), 5);
    assert_eq!(b.as_bytes(), &[0, 0, 0, 0, 0]);
    b.write_at(1, b"xy");
    assert_eq!(b.as_bytes(), &[0, b'x', b'y', 0, 0]);
}

#[test]
fn handle_is_two_words() {
    assert_eq!(std::mem::size_of::<ArcString>(), 2 * std::mem::size_of::<usize>());
}

#[test]
fn extend_with_owned_strings() {
    let mut h = ArcString::new("a", 0);
    h.extend_strings(vec![String::from("bc"), String::new(), String::from("dé")]);
    assert_eq!(h.as_str(), "abcdé");
    assert_eq!(h.len(), 6);
}

#[test]
fn round_trip_texts_and_room() {
    for text in ["", "a", "hello world", "héllo wörld", "日本語のテキスト", "🦀🦀🦀", "\u{7f}\u{80}\u{7ff}\u{800}\u{ffff}\u{10000}"] {
        for additional in [0usize, 1, 3, 64] {
            let h = ArcString::new(text, additional);
            assert_eq!(h.as_str(), text);
            assert_eq!(h.as_slice(), text.as_bytes());
            assert_eq!(h.len(), text.len());
            assert_eq!(h.capacity(), text.len() + additional);
        }
    }
}

#[test]
fn clone_reads_same_and_survives_drop_of_original() {
    let h = ArcString::new("héllo", 2);
    let c = h.clone();
    assert_eq!(h.as_str(), c.as_str());
    assert_eq!(h.len(), c.len());
    assert_eq!(h.capacity(), c.capacity());
    drop(h);
    assert_eq!(c.as_str(), "héllo");
}

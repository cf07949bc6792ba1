use sloop::index::{is_excluded, is_indexable, note_title, rel_id};
use sloop::number::push_fixed;
use sloop::order::is_before;
use sloop::path::{file_name, join_path, strip_prefix};
use sloop::text::{chars_of, is_white_space, split_at, split_lines, string_of, trim};
use std::path::Path;

fn samples() -> Vec<String> {
    let pieces = ["", "a", " ", "\n", "\r\n", "\r", "\u{a0}", "\u{3000}x", "```", "\n\n"];
    let mut out = Vec::new();
    for a in pieces {
        for b in pieces {
            for c in pieces {
                out.push(format!("{a}{b}{c}"));
            }
        }
    }
    out
}

#[test]
fn white_space_is_that_of_unicode() {
    for c in '\0'..=char::MAX {
        assert_eq!(is_white_space(c), c.is_whitespace(), "{c:?}");
    }
}

#[test]
fn lines_and_trimming_are_those_of_std() {
    for s in samples() {
        let chars = chars_of(&s);
        let lines: Vec<String> = split_lines(&chars).into_iter().map(string_of).collect();
        assert_eq!(lines, s.lines().collect::<Vec<_>>(), "{s:?}");
        assert_eq!(string_of(trim(&chars)), s.trim(), "{s:?}");
        let parts: Vec<String> =
            split_at(&chars, &['\n', '\n']).into_iter().map(string_of).collect();
        assert_eq!(parts, s.split("\n\n").collect::<Vec<_>>(), "{s:?}");
    }
}

#[test]
fn the_order_of_texts_is_the_order_of_their_bytes() {
    let words = ["", "a", "ab", "b", "B", "\u{e9}", "\u{ffff}", "\u{10000}", "a\u{e9}"];
    for a in words {
        for b in words {
            assert_eq!(is_before(&chars_of(a), &chars_of(b)), a < b, "{a:?} {b:?}");
        }
    }
}

#[test]
fn fixed_decimals_are_those_of_std() {
    let mut bits: Vec<u32> = Vec::new();
    for value in [
        0.42_f32, 0.75, 1.0, 0.125, 0.375, 0.005, 0.015, 0.995, 0.9995, 2.5, 1.0e10, 3.4e38,
        1.0e-45, 0.0, 0.033_333, 16_777_216.0, 33_554_432.0, 8_388_608.5, 0.000_5, 0.062_5,
        f32::MAX, f32::INFINITY, f32::NAN, 123.456,
    ] {
        bits.push(value.to_bits());
        bits.push((-value).to_bits());
    }
    let mut seed = 7_u32;
    for _ in 0..3000 {
        seed = seed.wrapping_mul(1_664_525).wrapping_add(1_013_904_223);
        bits.push(seed);
        bits.push(0x3f00_0000 | (seed >> 9));
    }
    for b in bits {
        let value = f32::from_bits(b);
        for places in 1..=4 {
            let mut out = Vec::new();
            push_fixed(&mut out, b, places);
            assert_eq!(
                string_of(&out),
                format!("{value:.0$}", places as usize),
                "{b:#x} {places}"
            );
        }
    }
}

fn paths() -> Vec<String> {
    let names = ["", "a", "b.md", ".", "..", ".md", "x.tar.md", ".git", "a.MD", "..md"];
    let mut out = Vec::new();
    for root in ["", "/", "//"] {
        for a in names {
            for b in names {
                for end in ["", "/", "/."] {
                    out.push(format!("{root}{a}/{b}{end}"));
                    out.push(format!("{root}{a}{end}"));
                }
            }
        }
    }
    out
}

#[test]
fn paths_are_read_as_std_reads_them() {
    for text in paths() {
        let path = Path::new(&text);
        let chars = chars_of(&text);
        let name = path.file_name().map(|n| n.to_string_lossy().into_owned());
        assert_eq!(file_name(&chars).map(|n| string_of(&n)), name, "{text:?}");
        assert_eq!(is_indexable(&text), path.extension().is_some_and(|x| x == "md"), "{text:?}");
        let stem = path.file_stem().map(|n| n.to_string_lossy().into_owned()).unwrap_or_default();
        assert_eq!(note_title(&text), stem, "{text:?}");
        let hidden = path.components().any(|c| c.as_os_str() == ".git");
        assert_eq!(is_excluded(&text), hidden, "{text:?}");
    }
}

#[test]
fn paths_are_joined_and_stripped_as_std_does() {
    let all = paths();
    for dir in [
        "/", "/a", "/a/", "/a//b.md", "/./a", "/a/..", "", ".", "./", "./a", "a", "a/", "..", "a/..",
        "a/./b.md",
    ] {
        for text in &all {
            let joined = Path::new(dir).join(text).to_string_lossy().into_owned();
            assert_eq!(string_of(&join_path(dir, text)), joined, "{dir:?} {text:?}");
            for path in [text.clone(), joined] {
                let std = Path::new(&path)
                    .strip_prefix(dir)
                    .ok()
                    .map(|p| p.to_string_lossy().into_owned());
                let ours = strip_prefix(&chars_of(dir), &chars_of(&path)).map(|p| string_of(&p));
                assert_eq!(ours, std, "{dir:?} {path:?}");
            }
        }
    }
}

#[test]
fn a_path_outside_its_root_gets_a_second_chance() {
    assert_eq!(rel_id("/private/tmp/r", "/private/tmp/r/n/a.md", None), "n/a.md");
    assert_eq!(rel_id("/private/tmp/r", "/tmp/r/a.md", Some("/private/tmp/r/a.md")), "a.md");
    assert_eq!(rel_id("/private/tmp/r", "/tmp/r/a.md", Some("/elsewhere/a.md")), "/tmp/r/a.md");
    assert_eq!(rel_id("/private/tmp/r", "/tmp/r/a.md", None), "/tmp/r/a.md");
    assert_eq!(rel_id("a", "a/b.md", None), "b.md");
    assert_eq!(rel_id("a", "/a/b.md", None), "/a/b.md");
}

use nu_ansi_term::Color;
use prompt_segment::segment::Segment;
use prompt_segment::style::{AnsiStyle, PrevColor, Style};

fn on(color: Color) -> AnsiStyle {
    AnsiStyle {
        background: Some(color),
        ..AnsiStyle::default()
    }
}

fn fg(color: Color) -> AnsiStyle {
    AnsiStyle {
        foreground: Some(color),
        ..AnsiStyle::default()
    }
}

fn rejoin(segs: &[Segment]) -> String {
    let mut s = String::new();
    for seg in segs {
        s.push_str(seg.value());
    }
    s
}

fn count_breaks(segs: &[Segment]) -> usize {
    segs.iter().filter(|s| s.is_linebreak()).count()
}

fn separator_of(raw: &str) -> prompt_segment::segment::SeparatorSegment {
    match Segment::separator(None, raw) {
        Segment::Separator(s) => s,
        _ => unreachable!(),
    }
}

#[test]
fn from_text_without_terminator_is_one_text() {
    let segs = Segment::from_text(None, "hello");
    assert_eq!(segs.len(), 1);
    assert!(matches!(segs[0], Segment::Text(_)));
    assert_eq!(segs[0].value(), "hello");
}

#[test]
fn from_text_of_nothing_is_one_empty_text() {
    let segs = Segment::from_text(None, "");
    assert_eq!(segs.len(), 1);
    assert!(matches!(segs[0], Segment::Text(_)));
    assert_eq!(segs[0].value(), "");
}

#[test]
fn from_text_puts_breaks_between_lines() {
    let style = Style::fixed(fg(Color::Green));
    let segs = Segment::from_text(Some(style), "one\ntwo\n\nfour");
    assert_eq!(segs.len(), 7);
    let expected = ["one", "\n", "two", "\n", "", "\n", "four"];
    for (i, seg) in segs.iter().enumerate() {
        assert_eq!(seg.value(), expected[i]);
        assert_eq!(seg.is_linebreak(), i % 2 == 1);
        if i % 2 == 0 {
            assert!(matches!(seg, Segment::Text(_)));
            assert_eq!(seg.style(), Some(fg(Color::Green)));
        } else {
            assert_eq!(seg.style(), None);
        }
    }
}

#[test]
fn from_text_keeps_leading_and_trailing_terminators() {
    let segs = Segment::from_text(None, "\na\n");
    assert_eq!(segs.len(), 5);
    assert_eq!(segs[0].value(), "");
    assert!(segs[1].is_linebreak());
    assert_eq!(segs[2].value(), "a");
    assert!(segs[3].is_linebreak());
    assert_eq!(segs[4].value(), "");
}

#[test]
fn from_text_rejoins_to_the_text() {
    for s in ["", "a", "\n", "a\nb", "\n\n", "a\n\nb\n", "é\n🟦\r\nx"] {
        let segs = Segment::from_text(None, s);
        assert_eq!(rejoin(&segs), s);
    }
}

#[test]
fn from_text_has_one_break_fewer_than_texts() {
    for s in ["", "a", "\n", "a\nb", "\n\n", "a\n\nb\n"] {
        let segs = Segment::from_text(None, s);
        let breaks = count_breaks(&segs);
        let texts = segs.len() - breaks;
        assert!(texts >= 1);
        assert_eq!(breaks, texts - 1);
        assert_eq!(breaks, s.matches('\n').count());
    }
}

#[test]
fn from_text_segments_hold_no_terminator() {
    for seg in Segment::from_text(None, "a\nb\n\nc") {
        if !seg.is_linebreak() {
            assert!(!seg.value().contains('\n'));
        }
    }
}

#[test]
fn separator_direction_comes_from_the_marker() {
    assert!(separator_of("▶l").is_left());
    assert!(!separator_of("▶r").is_left());
    assert!(!separator_of("▶").is_left());
    assert_eq!(Segment::separator(None, "▶l").value(), "▶");
    assert_eq!(Segment::separator(None, "▶r").value(), "▶");
    assert_eq!(Segment::separator(None, "▶").value(), "▶");
}

#[test]
fn separator_strips_every_trailing_marker() {
    assert_eq!(Segment::separator(None, "▶lr").value(), "▶");
    assert!(!separator_of("▶lr").is_left());
    assert!(separator_of("▶rl").is_left());
    assert_eq!(Segment::separator(None, "lr").value(), "");
    assert!(separator_of("l").is_left());
    assert_eq!(Segment::separator(None, "").value(), "");
    assert!(!separator_of("").is_left());
    assert_eq!(Segment::separator(None, "l▶").value(), "l▶");
    assert!(!separator_of("l▶").is_left());
}

#[test]
fn derive_style_bridges_both_neighbours() {
    let sep = separator_of("▶");
    let a = AnsiStyle {
        foreground: Some(Color::White),
        background: Some(Color::Red),
        is_bold: true,
        ..AnsiStyle::default()
    };
    let b = AnsiStyle {
        foreground: Some(Color::Black),
        background: Some(Color::Blue),
        ..AnsiStyle::default()
    };
    let d = sep.derive_style(Some(a), Some(b));
    assert_eq!(d.foreground, Some(Color::Blue));
    assert_eq!(d.background, Some(Color::Red));
    assert_eq!(
        d,
        AnsiStyle {
            foreground: Some(Color::Blue),
            background: Some(Color::Red),
            ..AnsiStyle::default()
        }
    );
}

#[test]
fn derive_style_with_one_neighbour_sets_the_foreground_only() {
    let sep = separator_of("▶");
    assert_eq!(
        sep.derive_style(Some(on(Color::Red)), None),
        fg(Color::Red)
    );
    assert_eq!(
        sep.derive_style(None, Some(on(Color::Blue))),
        fg(Color::Blue)
    );
    assert_eq!(
        sep.derive_style(Some(fg(Color::Red)), None),
        AnsiStyle::default()
    );
}

#[test]
fn derive_style_without_neighbours_is_plain() {
    let sep = separator_of("▶");
    let d = sep.derive_style(None, None);
    assert_eq!(d, AnsiStyle::default());
    assert_eq!(d.foreground, None);
    assert_eq!(d.background, None);
}

#[test]
fn separator_set_style_is_used_as_it_is() {
    let mut sep = separator_of("▶l");
    let derived = sep.derive_style(Some(on(Color::Red)), Some(on(Color::Blue)));
    sep.set_style(Some(derived));
    let out = sep.ansi_string(Some(&on(Color::Green)));
    assert_eq!(out.style, derived);
    assert_eq!(out.string, "▶");
    assert!(sep.is_left());
    sep.set_style(None);
    assert_eq!(sep.ansi_string(None).style, AnsiStyle::default());
}

#[test]
fn set_style_if_empty_takes_the_first_fallback_only() {
    let first = Style::fixed(fg(Color::Red));
    let second = Style::fixed(fg(Color::Blue));
    let mut segs = vec![
        Segment::fill(None, "."),
        Segment::separator(None, "▶l"),
        Segment::from_text(None, "x").remove(0),
    ];
    for seg in segs.iter_mut() {
        seg.set_style_if_empty(Some(first));
        assert_eq!(seg.style(), Some(fg(Color::Red)));
        seg.set_style_if_empty(Some(second));
        assert_eq!(seg.style(), Some(fg(Color::Red)));
        seg.set_style_if_empty(None);
        assert_eq!(seg.style(), Some(fg(Color::Red)));
    }
    assert_eq!(segs[0].value(), ".");
    assert_eq!(segs[1].value(), "▶");
    assert_eq!(segs[2].value(), "x");
}

#[test]
fn set_style_if_empty_keeps_an_explicit_style() {
    let own = Style::fixed(fg(Color::Yellow));
    let mut seg = Segment::fill(Some(own), "-");
    seg.set_style_if_empty(Some(Style::fixed(fg(Color::Red))));
    assert_eq!(seg.style(), Some(fg(Color::Yellow)));
}

#[test]
fn set_style_if_empty_with_no_fallback_leaves_the_segment_open() {
    let mut seg = Segment::fill(None, "-");
    seg.set_style_if_empty(None);
    assert_eq!(seg.style(), None);
    seg.set_style_if_empty(Some(Style::fixed(fg(Color::Red))));
    assert_eq!(seg.style(), Some(fg(Color::Red)));
}

#[test]
fn set_style_if_empty_leaves_a_line_break_alone() {
    let mut seg = Segment::LineTerm;
    seg.set_style_if_empty(Some(Style::fixed(fg(Color::Red))));
    assert!(seg.is_linebreak());
    assert_eq!(seg.style(), None);
    assert_eq!(seg.value(), "\n");
}

#[test]
fn line_break_has_no_width_and_no_style() {
    let seg = Segment::LineTerm;
    assert!(seg.is_linebreak());
    assert_eq!(seg.width_graphemes(), 0);
    assert_eq!(seg.value(), "\n");
    let out = seg.ansi_string(Some(&on(Color::Red)));
    assert_eq!(out.string, "\n");
    assert_eq!(out.style, AnsiStyle::default());
}

#[test]
fn segment_width_counts_columns() {
    assert_eq!(Segment::fill(None, "-:-").width_graphemes(), 3);
    assert_eq!(Segment::fill(None, "🟦").width_graphemes(), 2);
    assert_eq!(Segment::separator(None, "▶l").width_graphemes(), 1);
    assert_eq!(Segment::from_text(None, "e\u{301}a")[0].width_graphemes(), 2);
    assert_eq!(Segment::from_text(None, "")[0].width_graphemes(), 0);
    assert!(!Segment::fill(None, "").is_linebreak());
}

#[test]
fn segment_ansi_string_resolves_against_the_previous_style() {
    let style = Style {
        style: fg(Color::White),
        bg: Some(PrevColor::Fg),
        fg: Some(PrevColor::Bg),
    };
    let prev = AnsiStyle {
        foreground: Some(Color::Cyan),
        background: Some(Color::Purple),
        ..AnsiStyle::default()
    };
    let seg = Segment::from_text(Some(style), "text").remove(0);
    let out = seg.ansi_string(Some(&prev));
    assert_eq!(out.string, "text");
    assert_eq!(out.style.foreground, Some(Color::Purple));
    assert_eq!(out.style.background, Some(Color::Cyan));
    let alone = seg.ansi_string(None);
    assert_eq!(alone.style, fg(Color::White));
    assert_eq!(seg.style(), Some(fg(Color::White)));
}

#[test]
fn segment_ansi_string_shows_a_fill_pattern_once() {
    let out = Segment::fill(None, "-:-").ansi_string(None);
    assert_eq!(out.string, "-:-");
    assert_eq!(out.style, AnsiStyle::default());
}

#[test]
fn style_resolves_borrowed_colours() {
    let base = AnsiStyle {
        foreground: Some(Color::Red),
        background: Some(Color::Green),
        is_italic: true,
        ..AnsiStyle::default()
    };
    let prev = AnsiStyle {
        foreground: Some(Color::Blue),
        background: None,
        ..AnsiStyle::default()
    };
    let s = Style {
        style: base,
        bg: Some(PrevColor::Bg),
        fg: None,
    };
    let r = s.to_ansi_style(Some(&prev));
    assert_eq!(r.foreground, Some(Color::Red));
    assert_eq!(r.background, None);
    assert!(r.is_italic);
    assert_eq!(s.to_ansi_style(None), base);
    assert_eq!(Style::fixed(base).to_ansi_style(Some(&prev)), base);
    assert_eq!(AnsiStyle::new(), AnsiStyle::default());
}

use ruvyxa::layout::{field_line, format_bytes};
use ruvyxa::mascot::{ascii_glyphs, glyphs, tui_header_title, unicode_glyphs};
use ruvyxa::progress::{phase_line, runner_cells, TRACK_WIDTH};
use ruvyxa::theme::{detect_capabilities, paint_when, Capabilities};

fn env_from<'a>(pairs: &'a [(&'a str, &'a str)]) -> impl Fn(&str) -> Option<String> + 'a {
    move |name| pairs.iter().find(|(key, _)| *key == name).map(|(_, value)| value.to_string())
}

/// What a test process sees: no terminal, so no colour and no movement.
fn piped() -> Capabilities {
    detect_capabilities(false, env_from(&[]))
}

#[test]
fn a_terminal_gets_colour_animation_and_unicode() {
    let capabilities = detect_capabilities(true, env_from(&[]));
    assert_eq!(capabilities, Capabilities { color: true, animate: true, unicode: true });
}

#[test]
fn a_pipe_gets_no_colour_and_no_movement_but_keeps_its_glyphs() {
    assert_eq!(
        detect_capabilities(false, env_from(&[])),
        Capabilities { color: false, animate: false, unicode: true }
    );
}

#[test]
fn no_color_keeps_animation_but_drops_colour() {
    let capabilities = detect_capabilities(true, env_from(&[("NO_COLOR", "1")]));
    assert!(!capabilities.color);
    assert!(capabilities.animate);
}

#[test]
fn dumb_terminals_get_nothing() {
    assert_eq!(detect_capabilities(true, env_from(&[("TERM", "dumb")])), Capabilities::plain());
}

#[test]
fn ruvyxa_fun_off_keeps_colour_and_stops_movement() {
    for value in ["0", "false", "off", "no", ""] {
        let capabilities = detect_capabilities(true, env_from(&[("RUVYXA_FUN", value)]));
        assert!(capabilities.color, "colour should survive RUVYXA_FUN={value}");
        assert!(!capabilities.animate, "RUVYXA_FUN={value} should stop movement");
    }
}

#[test]
fn ruvyxa_fun_on_leaves_animation_enabled() {
    assert!(detect_capabilities(true, env_from(&[("RUVYXA_FUN", "1")])).animate);
}

#[test]
fn ruvyxa_ascii_selects_the_ascii_glyph_set() {
    let capabilities = detect_capabilities(true, env_from(&[("RUVYXA_ASCII", "1")]));
    assert!(!capabilities.unicode);
    assert_eq!(glyphs(capabilities), ascii_glyphs());
}

#[test]
fn paint_wraps_only_when_colour_is_allowed() {
    assert_eq!(paint_when(true, "build", "36"), "\x1b[36mbuild\x1b[0m");
    assert_eq!(paint_when(false, "build", "36"), "build");
}

#[test]
fn the_runner_starts_at_the_left_edge() {
    let (behind, runner, ahead) = runner_cells(unicode_glyphs(), 0, 10, 0);
    assert_eq!(behind, "");
    assert_eq!(runner, "🦊");
    assert_eq!(ahead.chars().count(), TRACK_WIDTH);
}

#[test]
fn the_runner_reaches_the_right_edge_when_the_work_is_done() {
    let (behind, _, ahead) = runner_cells(unicode_glyphs(), 10, 10, 0);
    assert_eq!(behind.chars().count(), TRACK_WIDTH);
    assert_eq!(ahead, "");
}

#[test]
fn the_track_keeps_one_width_at_every_position() {
    for done in 0..=10 {
        let (behind, _, ahead) = runner_cells(unicode_glyphs(), done, 10, 0);
        assert_eq!(
            behind.chars().count() + ahead.chars().count(),
            TRACK_WIDTH,
            "track width changed at {done}/10"
        );
    }
}

#[test]
fn dust_alternates_behind_the_runner_between_frames() {
    let (first, _, _) = runner_cells(unicode_glyphs(), 5, 10, 0);
    let (second, _, _) = runner_cells(unicode_glyphs(), 5, 10, 1);
    assert_ne!(first, second);
    assert!(first.ends_with(unicode_glyphs().dust[0]));
    assert!(second.ends_with(unicode_glyphs().dust[1]));
}

#[test]
fn overshooting_the_total_does_not_panic_or_overflow_the_track() {
    let (behind, _, ahead) = runner_cells(unicode_glyphs(), 99, 10, 0);
    assert_eq!(behind.chars().count(), TRACK_WIDTH);
    assert_eq!(ahead, "");
}

#[test]
fn a_zero_total_leaves_the_track_empty() {
    let (behind, _, ahead) = runner_cells(unicode_glyphs(), 3, 0, 0);
    assert_eq!(behind, "");
    assert_eq!(ahead.chars().count(), TRACK_WIDTH);
}

#[test]
fn field_and_phase_lines_put_their_value_in_the_same_column() {
    fn value_column(line: &str) -> usize {
        line[..line.find("value").expect("value is present")].chars().count()
    }

    let capabilities = piped();
    assert_eq!(
        value_column(&field_line(capabilities.color, "app dir", "value".to_string())),
        value_column(&phase_line(capabilities, "routes discovered", "value".to_string(), "0ms")),
        "field and phase lines disagree on the value column"
    );
}

#[test]
fn header_title_keeps_the_mascot_in_piped_output() {
    assert_eq!(tui_header_title("Build"), "🦊 Ruvyxa Build");
}

#[test]
fn byte_sizes_switch_units_at_each_boundary() {
    assert_eq!(format_bytes(512), "512 B");
    assert_eq!(format_bytes(2048), "2.0 kB");
    assert_eq!(format_bytes(2 * 1024 * 1024), "2.0 MB");
}

#[test]
fn byte_sizes_round_as_the_float_formatting_does() {
    for bytes in [
        0usize, 1, 1023, 1024, 1100, 1280, 1536, 10 * 1024 - 1, 10 * 1024, 10 * 1024 + 512,
        1024 * 1024 - 1, 1024 * 1024, 3 * 1024 * 1024 + 52429, 10 * 1024 * 1024 - 1,
        10 * 1024 * 1024 + 512 * 1024, 123_456_789, usize::MAX,
    ] {
        let expected = if bytes < 1024 {
            format!("{bytes} B")
        } else if bytes < 1024 * 1024 {
            let k = bytes as f64 / 1024.0;
            if k < 10.0 {
                format!("{k:.1} kB")
            } else {
                format!("{k:.0} kB")
            }
        } else {
            let m = bytes as f64 / (1024.0 * 1024.0);
            if m < 10.0 {
                format!("{m:.1} MB")
            } else {
                format!("{m:.0} MB")
            }
        };
        assert_eq!(format_bytes(bytes), expected, "{bytes}");
    }
}

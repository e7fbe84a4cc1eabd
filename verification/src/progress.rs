//! The runner track and the phase line.
//!
//! The track repaints the current line with a carriage return, so whoever
//! draws it checks [`Capabilities::animate`] first; the text of a frame is
//! decided here. The phase line printed at the end is the only record of the
//! work on a pipe, a log file, `TERM=dumb`, or `RUVYXA_FUN=0`.

use vstd::prelude::*;

use crate::layout::{field_text, padding, spaces, FIELD_LABEL_WIDTH, PHASE_LABEL_WIDTH};
use crate::mascot::{glyphs, is_ascii_set, is_unicode_set, Glyphs};
use crate::text::{lemma_repeat_len, push_repeat, push_str, repeat, string_from_chars};
use crate::theme::{accent, dim, label, ok_text, painted, Capabilities};

verus! {

broadcast use vstd::string::group_string_axioms;

/// Cells of track, excluding the runner itself. The runner is drawn between the
/// two halves, so the rendered width is constant as it advances.
pub const TRACK_WIDTH: usize = 26;

/// How many cells lie behind the runner after `done` of `total` steps. A zero
/// total leaves the runner at the start; overshooting the total keeps it at
/// the end.
pub open spec fn filled_cells(done: nat, total: nat) -> nat {
    if total == 0 {
        0
    } else {
        let d = if done < total {
            done
        } else {
            total
        };
        (TRACK_WIDTH as nat * d) / total
    }
}

/// Completed ground behind the runner: the cell it just left shows dust, which
/// alternates with `tick` so the runner looks like it is running.
pub open spec fn behind_cells(ground: Seq<char>, dust: Seq<char>, filled: nat) -> Seq<char> {
    if filled == 0 {
        Seq::empty()
    } else {
        repeat(ground, (filled - 1) as nat) + dust
    }
}

/// Untouched ground ahead of the runner.
pub open spec fn ahead_cells(empty: Seq<char>, filled: nat) -> Seq<char> {
    repeat(empty, (TRACK_WIDTH - filled) as nat)
}

/// The track glyphs of each set: ground, untouched ground, the two dust
/// frames, and the runner.
pub open spec fn track_glyphs(unicode: bool) -> (Seq<char>, Seq<char>, Seq<char>, Seq<char>, Seq<
    char,
>) {
    if unicode {
        ("▰"@, "▱"@, "·"@, "˙"@, "🦊"@)
    } else {
        ("#"@, "-"@, "."@, ","@, ">"@)
    }
}

/// The status glyph of a finished phase in each set.
pub open spec fn done_glyph(unicode: bool) -> Seq<char> {
    if unicode {
        "✓"@
    } else {
        "+"@
    }
}

/// The unstyled halves of the track and the runner between them. Split out
/// from [`runner_track`] because the position and dust arithmetic is what can
/// be wrong, and it is testable only without escape codes in the way.
pub fn runner_cells(glyphs: Glyphs, done: usize, total: usize, tick: usize) -> (r: (
    String,
    &'static str,
    String,
))
    requires
        TRACK_WIDTH * (if done < total {
            done
        } else {
            total
        }) <= usize::MAX,
    ensures
        filled_cells(done as nat, total as nat) <= TRACK_WIDTH,
        r.0@ == behind_cells(
            glyphs.filled@,
            glyphs.dust[(tick % 2) as int]@,
            filled_cells(done as nat, total as nat),
        ),
        r.1 == glyphs.runner,
        r.2@ == ahead_cells(glyphs.empty@, filled_cells(done as nat, total as nat)),
{
    let d = if done < total {
        done
    } else {
        total
    };
    let filled: usize = if total == 0 {
        0
    } else {
        TRACK_WIDTH * d / total
    };
    proof {
        if total > 0 {
            assert((TRACK_WIDTH * d) as int / total as int <= TRACK_WIDTH) by (nonlinear_arith)
                requires
                    d <= total,
                    total > 0,
            ;
        }
    }
    let mut behind: Vec<char> = Vec::new();
    if filled > 0 {
        push_repeat(&mut behind, glyphs.filled, filled - 1);
        push_str(&mut behind, glyphs.dust[tick % 2]);
    }
    let mut ahead: Vec<char> = Vec::new();
    push_repeat(&mut ahead, glyphs.empty, TRACK_WIDTH - filled);
    assert(behind@ =~= behind_cells(glyphs.filled@, glyphs.dust[(tick % 2) as int]@, filled as nat));
    assert(ahead@ =~= ahead_cells(glyphs.empty@, filled as nat));
    (string_from_chars(behind.as_slice()), glyphs.runner, string_from_chars(ahead.as_slice()))
}

/// The coloured track: completed ground behind the runner, a puff of dust under
/// its feet, untouched ground ahead.
pub open spec fn track_text(color: bool, unicode: bool, done: nat, total: nat, tick: nat) -> Seq<
    char,
> {
    let (ground, empty, dust0, dust1, runner) = track_glyphs(unicode);
    let dust = if tick % 2 == 0 {
        dust0
    } else {
        dust1
    };
    let filled = filled_cells(done, total);
    painted(color, behind_cells(ground, dust, filled), "36"@) + runner + painted(
        color,
        ahead_cells(empty, filled),
        "90"@,
    )
}

pub fn runner_track(capabilities: Capabilities, done: usize, total: usize, tick: usize) -> (r:
    String)
    requires
        TRACK_WIDTH * (if done < total {
            done
        } else {
            total
        }) <= usize::MAX,
    ensures
        r@ == track_text(
            capabilities.color,
            capabilities.unicode,
            done as nat,
            total as nat,
            tick as nat,
        ),
{
    let g = glyphs(capabilities);
    let (behind, runner, ahead) = runner_cells(g, done, total, tick);
    let mut out: Vec<char> = Vec::new();
    push_str(&mut out, accent(capabilities.color, behind.as_str()).as_str());
    push_str(&mut out, runner);
    push_str(&mut out, dim(capabilities.color, ahead.as_str()).as_str());
    assert(tick % 2 == 0 || tick % 2 == 1);
    assert(out@ =~= track_text(
        capabilities.color,
        capabilities.unicode,
        done as nat,
        total as nat,
        tick as nat,
    ));
    string_from_chars(out.as_slice())
}

/// A phase line: what ran, what it produced, how long it took.
pub open spec fn phase_text(
    color: bool,
    done_glyph: Seq<char>,
    name: &str,
    detail: Seq<char>,
    elapsed: Seq<char>,
) -> Seq<char> {
    "  "@ + painted(color, done_glyph, "32"@) + " "@ + painted(color, name@, "90"@) + repeat(
        " "@,
        padding(PHASE_LABEL_WIDTH as int, name.len() as int),
    ) + " "@ + painted(color, detail, "36"@) + " "@ + painted(color, "· "@ + elapsed, "90"@)
}

/// The phase line for `name`, with the phase's result and its formatted
/// duration.
pub fn phase_line(capabilities: Capabilities, name: &str, detail: String, elapsed: &str) -> (r:
    String)
    ensures
        r@ == phase_text(
            capabilities.color,
            done_glyph(capabilities.unicode),
            name,
            detail@,
            elapsed@,
        ),
{
    let g = glyphs(capabilities);
    let color = capabilities.color;
    let mut timing: Vec<char> = Vec::new();
    push_str(&mut timing, "· ");
    push_str(&mut timing, elapsed);
    let timing = string_from_chars(timing.as_slice());
    let mut out: Vec<char> = Vec::new();
    push_str(&mut out, "  ");
    push_str(&mut out, ok_text(color, g.done).as_str());
    push_str(&mut out, " ");
    push_str(&mut out, label(color, name).as_str());
    push_str(&mut out, spaces(PHASE_LABEL_WIDTH, name.len()).as_str());
    push_str(&mut out, " ");
    push_str(&mut out, accent(color, detail.as_str()).as_str());
    push_str(&mut out, " ");
    push_str(&mut out, dim(color, timing.as_str()).as_str());
    assert(out@ =~= phase_text(color, g.done@, name, detail@, elapsed@));
    string_from_chars(out.as_slice())
}

/// The track keeps one width wherever the runner stands: with one-character
/// glyphs, the cells behind and ahead of it always add up to the track width.
pub proof fn law_track_keeps_one_width(
    ground: Seq<char>,
    empty: Seq<char>,
    dust: Seq<char>,
    done: nat,
    total: nat,
)
    requires
        ground.len() == 1,
        empty.len() == 1,
        dust.len() == 1,
    ensures
        behind_cells(ground, dust, filled_cells(done, total)).len() + ahead_cells(
            empty,
            filled_cells(done, total),
        ).len() == TRACK_WIDTH,
{
    let filled = filled_cells(done, total);
    if total > 0 {
        let d = if done < total {
            done
        } else {
            total
        };
        assert((TRACK_WIDTH as nat * d) / total <= TRACK_WIDTH) by (nonlinear_arith)
            requires
                d <= total,
                total > 0,
        ;
    }
    lemma_repeat_len(empty, (TRACK_WIDTH - filled) as nat);
    if filled > 0 {
        lemma_repeat_len(ground, (filled - 1) as nat);
    }
}

/// The runner starts at the left edge, reaches the right edge once the work is
/// done, and never runs past it.
pub proof fn law_runner_spans_the_track(done: nat, total: nat)
    ensures
        filled_cells(0, total) == 0,
        total > 0 ==> filled_cells(total, total) == TRACK_WIDTH,
        total > 0 && done >= total ==> filled_cells(done, total) == TRACK_WIDTH,
        filled_cells(done, total) <= TRACK_WIDTH,
{
    if total > 0 {
        assert((TRACK_WIDTH as nat * total) / total == TRACK_WIDTH) by (nonlinear_arith)
            requires
                total > 0,
        ;
        let d = if done < total {
            done
        } else {
            total
        };
        assert((TRACK_WIDTH as nat * d) / total <= TRACK_WIDTH) by (nonlinear_arith)
            requires
                d <= total,
                total > 0,
        ;
        assert((TRACK_WIDTH as nat * 0) / total == 0) by (nonlinear_arith)
            requires
                total > 0,
        ;
    }
}

/// Without colour, a field line and a phase line put their value in the same
/// column, 23, for every ASCII label that fits the phase label column: the
/// build summary reads as one table.
pub proof fn law_field_and_phase_values_share_a_column(
    name: &str,
    value: Seq<char>,
    unicode: bool,
    elapsed: Seq<char>,
)
    requires
        vstd::string::is_ascii(name),
        name@.len() <= PHASE_LABEL_WIDTH,
    ensures
        field_text(false, name, value).subrange(23, 23 + value.len() as int) == value,
        phase_text(false, done_glyph(unicode), name, value, elapsed).subrange(
            23,
            23 + value.len() as int,
        ) == value,
{
    vstd::string::is_ascii_spec_bytes(name);
    reveal_strlit("  ");
    reveal_strlit(" ");
    reveal_strlit("✓");
    reveal_strlit("+");
    assert(name.len() as int == name@.len());
    lemma_repeat_len(" "@, padding(FIELD_LABEL_WIDTH as int, name.len() as int));
    lemma_repeat_len(" "@, padding(PHASE_LABEL_WIDTH as int, name.len() as int));
    let f = field_text(false, name, value);
    let p = phase_text(false, done_glyph(unicode), name, value, elapsed);
    assert(f.subrange(23, 23 + value.len() as int) =~= value);
    assert(p.subrange(23, 23 + value.len() as int) =~= value);
}

} // verus!

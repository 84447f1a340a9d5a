//! The configuration overlay: its visibility and cursor, how key presses
//! drive them, and the text panel it shows.

use vstd::prelude::*;

use crate::text::chars_of;

verus! {

/// Width of the overlay panel in character cells.
pub const PANEL_COLS: usize = 34;

/// How a piece of panel text is coloured.
#[derive(Clone, Copy, Debug, PartialEq, Eq, Structural)]
pub enum TextStyle {
    Normal,
    Dim,
    Highlight,
}

/// One visible character of the panel, at a character cell.
#[derive(Clone, Copy, Debug, PartialEq, Eq, Structural)]
pub struct GlyphCell {
    pub row: usize,
    pub col: usize,
    pub ch: char,
    pub style: TextStyle,
}

/// A run of panel text starting at a character cell.
pub struct PanelLine {
    pub row: nat,
    pub col: nat,
    pub text: Seq<char>,
    pub style: TextStyle,
}

/// Decimal digits of `n`, most significant first.
pub open spec fn decimal(n: nat) -> Seq<char>
    decreases n,
{
    if n < 10 {
        seq![digit_char(n)]
    } else {
        decimal(n / 10).push(digit_char(n % 10))
    }
}

pub open spec fn digit_char(d: nat) -> char {
    (48 + d) as char
}

/// Number of character rows of the panel for `num_viz` entries.
pub open spec fn panel_rows(num_viz: nat) -> nat {
    7 + num_viz
}

/// The line for visualization `i`: a marker on the selected entry, a check
/// box showing whether it is enabled, and its name.
pub open spec fn viz_line(i: nat, cursor: nat, enabled: bool, name: Seq<char>) -> PanelLine {
    let selected = i == cursor;
    let marker = if selected {
        " > "@
    } else {
        "   "@
    };
    let check = if enabled {
        "[x] "@
    } else {
        "[ ] "@
    };
    PanelLine {
        row: 3 + i,
        col: 0,
        text: marker + check + name,
        style: if selected {
            TextStyle::Highlight
        } else {
            TextStyle::Normal
        },
    }
}

/// Every text run of the panel, top to bottom.
pub open spec fn panel_lines(
    cursor: nat,
    names: Seq<Seq<char>>,
    enabled: Seq<bool>,
    duration_secs: u64,
) -> Seq<PanelLine> {
    let n = names.len();
    let header = seq![
        PanelLine { row: 0, col: 0, text: " MILKDROP CONFIG"@, style: TextStyle::Normal },
        PanelLine { row: 0, col: (PANEL_COLS - 8) as nat, text: "` close "@, style: TextStyle::Dim },
        PanelLine { row: 2, col: 0, text: " VISUALIZATIONS"@, style: TextStyle::Dim },
    ];
    let entries = Seq::new(n, |i: int| viz_line(i as nat, cursor, enabled[i], names[i]));
    let footer = seq![
        PanelLine { row: 4 + n, col: 0, text: " CYCLE DURATION"@, style: TextStyle::Dim },
        PanelLine {
            row: 5 + n,
            col: 0,
            text: "   < "@ + decimal(duration_secs as nat) + "s >"@,
            style: TextStyle::Normal,
        },
    ];
    header + entries + footer
}

/// The visible characters of a run of text (spaces are left to the
/// background).
pub open spec fn line_cells(row: nat, col: nat, text: Seq<char>, style: TextStyle) -> Seq<GlyphCell>
    decreases text.len(),
{
    if text.len() == 0 {
        Seq::empty()
    } else {
        let rest = line_cells(row, col, text.drop_last(), style);
        if text.last() == ' ' {
            rest
        } else {
            rest.push(cell_at(row, (col + text.len() - 1) as nat, text.last(), style))
        }
    }
}

/// The glyph cell for character `ch` at `(row, col)`.
pub open spec fn cell_at(row: nat, col: nat, ch: char, style: TextStyle) -> GlyphCell {
    GlyphCell { row: row as usize, col: col as usize, ch, style }
}

proof fn lemma_line_cells_step(row: nat, col: nat, text: Seq<char>, style: TextStyle)
    requires
        text.len() > 0,
    ensures
        line_cells(row, col, text, style) == if text.last() == ' ' {
            line_cells(row, col, text.drop_last(), style)
        } else {
            line_cells(row, col, text.drop_last(), style).push(
                cell_at(row, (col + text.len() - 1) as nat, text.last(), style),
            )
        },
{
}

/// The visible characters of all runs, in order.
pub open spec fn lines_cells(lines: Seq<PanelLine>) -> Seq<GlyphCell>
    decreases lines.len(),
{
    if lines.len() == 0 {
        Seq::empty()
    } else {
        lines_cells(lines.drop_last()) + line_cells(
            lines.last().row,
            lines.last().col,
            lines.last().text,
            lines.last().style,
        )
    }
}

/// Shortest cycle duration the overlay offers, in seconds.
pub const MIN_DURATION_SECS: u64 = 5;

/// Longest cycle duration the overlay offers, in seconds.
pub const MAX_DURATION_SECS: u64 = 600;

/// Step by which the arrow keys change the duration, in seconds.
pub const DURATION_STEP_SECS: u64 = 5;

/// What the application should do in response to a key.
#[derive(Clone, Copy, Debug, PartialEq, Eq, Structural)]
pub enum OverlayAction {
    ToggleViz(usize),
    SetDuration(u64),
}

/// What the overlay shows and edits.
pub struct OverlayConfig {
    pub viz_names: Vec<&'static str>,
    pub viz_enabled: Vec<bool>,
    pub duration_secs: u64,
}

/// The logical keys the overlay distinguishes.
#[derive(Debug)]
pub enum OverlayKey {
    /// A key producing text (the backtick toggles the overlay).
    Character(String),
    ArrowUp,
    ArrowDown,
    ArrowLeft,
    ArrowRight,
    Space,
    Enter,
    /// Any other key.
    Other,
}

/// Whether a key is the backtick that shows and hides the overlay.
pub open spec fn is_toggle_key(key: OverlayKey) -> bool {
    key matches OverlayKey::Character(s) && s@ == seq!['`']
}

/// Model of the overlay's state.
pub struct OverlayModel {
    pub visible: bool,
    pub cursor: nat,
}

/// The effect of one key event: the next state, whether the key was
/// consumed, and the requested action.
pub open spec fn key_step(
    m: OverlayModel,
    pressed: bool,
    key: OverlayKey,
    num_viz: nat,
    duration_secs: u64,
) -> (OverlayModel, bool, Option<OverlayAction>) {
    if !pressed {
        (m, false, None)
    } else if is_toggle_key(key) {
        let visible = !m.visible;
        let cursor = if visible {
            let last = if num_viz == 0 {
                0
            } else {
                (num_viz - 1) as nat
            };
            if m.cursor < last {
                m.cursor
            } else {
                last
            }
        } else {
            m.cursor
        };
        (OverlayModel { visible, cursor }, true, None)
    } else if !m.visible {
        (m, false, None)
    } else {
        match key {
            OverlayKey::ArrowUp => {
                let cursor = if m.cursor > 0 {
                    (m.cursor - 1) as nat
                } else {
                    m.cursor
                };
                (OverlayModel { cursor, ..m }, true, None)
            },
            OverlayKey::ArrowDown => {
                let cursor = if m.cursor + 1 < num_viz {
                    m.cursor + 1
                } else {
                    m.cursor
                };
                (OverlayModel { cursor, ..m }, true, None)
            },
            OverlayKey::Space => (m, true, Some(OverlayAction::ToggleViz(m.cursor as usize))),
            OverlayKey::Enter => (m, true, Some(OverlayAction::ToggleViz(m.cursor as usize))),
            OverlayKey::ArrowLeft => (m, true, Some(OverlayAction::SetDuration(shorter_duration(duration_secs)))),
            OverlayKey::ArrowRight => (m, true, Some(OverlayAction::SetDuration(longer_duration(duration_secs)))),
            _ => (m, true, None),
        }
    }
}

/// The duration after one step down: five seconds less, but at least five.
pub open spec fn shorter_duration(d: u64) -> u64 {
    let less = if d >= DURATION_STEP_SECS {
        (d - DURATION_STEP_SECS) as u64
    } else {
        0u64
    };
    if less < MIN_DURATION_SECS {
        MIN_DURATION_SECS
    } else {
        less
    }
}

/// The duration after one step up: five seconds more, but at most 600.
pub open spec fn longer_duration(d: u64) -> u64 {
    let more = if d + DURATION_STEP_SECS <= u64::MAX {
        (d + DURATION_STEP_SECS) as u64
    } else {
        u64::MAX
    };
    if more > MAX_DURATION_SECS {
        MAX_DURATION_SECS
    } else {
        more
    }
}

/// The overlay's interaction state.
pub struct Overlay {
    visible: bool,
    cursor: usize,
}

impl View for Overlay {
    type V = OverlayModel;

    closed spec fn view(&self) -> OverlayModel {
        OverlayModel { visible: self.visible, cursor: self.cursor as nat }
    }
}

impl Overlay {
    #[verifier::type_invariant]
    closed spec fn inv(self) -> bool {
        self.cursor < usize::MAX
    }

    /// A hidden overlay with the cursor on the first entry.
    pub fn new() -> (o: Overlay)
        ensures
            o@ == (OverlayModel { visible: false, cursor: 0 }),
    {
        Overlay { visible: false, cursor: 0 }
    }

    pub fn is_visible(&self) -> (b: bool)
        ensures
            b == self@.visible,
    {
        self.visible
    }

    pub fn cursor(&self) -> (c: usize)
        ensures
            c == self@.cursor,
    {
        self.cursor
    }

    /// Handles one key event. Returns whether the overlay consumed the key
    /// and the action it requests: the backtick toggles visibility; while
    /// visible every key is consumed, the vertical arrows move the cursor,
    /// space or enter toggles the entry under it and the horizontal arrows
    /// shorten or lengthen the cycle duration.
    pub fn handle_key(&mut self, pressed: bool, key: &OverlayKey, config: &OverlayConfig) -> (r: (
        bool,
        Option<OverlayAction>,
    ))
        ensures
            ({
                let (m, consumed, action) = key_step(
                    old(self)@,
                    pressed,
                    *key,
                    config.viz_names@.len(),
                    config.duration_secs,
                );
                &&& final(self)@ == m
                &&& r.0 == consumed
                &&& r.1 == action
            }),
            pressed && old(self)@.visible && *key == OverlayKey::ArrowRight ==> r == (
                true,
                Some(
                    OverlayAction::SetDuration(
                        if config.duration_secs <= 595 {
                            (config.duration_secs + 5) as u64
                        } else {
                            600u64
                        },
                    ),
                ),
            ),
            pressed && old(self)@.visible && *key == OverlayKey::ArrowLeft ==> r == (
                true,
                Some(
                    OverlayAction::SetDuration(
                        if config.duration_secs >= 10 {
                            (config.duration_secs - 5) as u64
                        } else {
                            5u64
                        },
                    ),
                ),
            ),
    {
        proof {
            if old(self)@.visible {
                lemma_duration_steps(old(self)@, config.viz_names@.len(), config.duration_secs);
            }
        }
        proof {
            use_type_invariant(&*self);
        }
        if !pressed {
            return (false, None);
        }
        if is_backtick(key) {
            let visible = !self.visible;
            if visible {
                let last = if config.viz_names.len() == 0 {
                    0
                } else {
                    config.viz_names.len() - 1
                };
                let cursor = if self.cursor < last {
                    self.cursor
                } else {
                    last
                };
                *self = Overlay { visible, cursor };
            } else {
                *self = Overlay { visible, cursor: self.cursor };
            }
            return (true, None);
        }
        if !self.visible {
            return (false, None);
        }
        let action = match key {
            OverlayKey::ArrowUp => {
                if self.cursor > 0 {
                    *self = Overlay { visible: self.visible, cursor: self.cursor - 1 };
                }
                None
            },
            OverlayKey::ArrowDown => {
                if self.cursor + 1 < config.viz_names.len() {
                    *self = Overlay { visible: self.visible, cursor: self.cursor + 1 };
                }
                None
            },
            OverlayKey::Space | OverlayKey::Enter => Some(OverlayAction::ToggleViz(self.cursor)),
            OverlayKey::ArrowLeft => Some(
                OverlayAction::SetDuration(shorter_duration_exec(config.duration_secs)),
            ),
            OverlayKey::ArrowRight => Some(
                OverlayAction::SetDuration(longer_duration_exec(config.duration_secs)),
            ),
            _ => None,
        };
        (true, action)
    }
}

pub open spec fn pow10(k: nat) -> nat
    decreases k,
{
    if k == 0 {
        1
    } else {
        10 * pow10((k - 1) as nat)
    }
}

proof fn lemma_decimal_len(n: nat, k: nat)
    requires
        n < pow10(k),
        k >= 1,
    ensures
        decimal(n).len() <= k,
    decreases n,
{
    if n >= 10 {
        if k == 1 {
            assert(pow10(1) == 10 * pow10(0));
        } else {
            assert(n / 10 < pow10((k - 1) as nat)) by (nonlinear_arith)
                requires
                    n < 10 * pow10((k - 1) as nat),
            ;
            lemma_decimal_len(n / 10, (k - 1) as nat);
        }
    }
}

proof fn lemma_lines_cells_take(lines: Seq<PanelLine>, k: int)
    requires
        0 <= k < lines.len(),
    ensures
        lines_cells(lines.take(k + 1)) == lines_cells(lines.take(k)) + line_cells(
            lines[k].row,
            lines[k].col,
            lines[k].text,
            lines[k].style,
        ),
{
    assert(lines.take(k + 1).drop_last() =~= lines.take(k));
    assert(lines.take(k + 1).last() == lines[k]);
}

/// Decimal digits of `n`, most significant first.
pub fn decimal_chars(n: u64) -> (v: Vec<char>)
    ensures
        v@ == decimal(n as nat),
    decreases n,
{
    if n < 10 {
        let mut v = Vec::new();
        v.push(digit_exec(n));
        v
    } else {
        let mut v = decimal_chars(n / 10);
        v.push(digit_exec(n % 10));
        v
    }
}

fn digit_exec(d: u64) -> (c: char)
    requires
        d < 10,
    ensures
        c == digit_char(d as nat),
{
    let b = (48 + d) as u8;
    b as char
}

fn append_chars(v: &mut Vec<char>, s: &str)
    ensures
        final(v)@ == old(v)@ + s@,
{
    let c = chars_of(s);
    let mut i: usize = 0;
    let ghost start = v@;
    while i < c.len()
        invariant
            c@ == s@,
            i <= c@.len(),
            v@ == start + c@.take(i as int),
        decreases c@.len() - i,
    {
        v.push(c[i]);
        assert(c@.take(i + 1) =~= c@.take(i as int).push(c@[i as int]));
        i = i + 1;
    }
    assert(c@.take(i as int) =~= c@);
}

/// Appends the visible characters of one run of text to `cells`.
fn push_line(cells: &mut Vec<GlyphCell>, row: usize, col: usize, text: &Vec<char>, style: TextStyle)
    requires
        col + text@.len() <= usize::MAX,
    ensures
        final(cells)@ == old(cells)@ + line_cells(row as nat, col as nat, text@, style),
{
    let ghost start = cells@;
    let mut i: usize = 0;
    while i < text.len()
        invariant
            col + text@.len() <= usize::MAX,
            i <= text@.len(),
            cells@ == start + line_cells(row as nat, col as nat, text@.take(i as int), style),
        decreases text@.len() - i,
    {
        let ghost before = text@.take(i as int);
        let ghost upto = text@.take(i + 1);
        assert(upto.drop_last() =~= before);
        assert(upto.last() == text@[i as int]);
        assert(upto.len() == i + 1);
        let ghost prev_cells = line_cells(row as nat, col as nat, before, style);
        let ghost next_cells = line_cells(row as nat, col as nat, upto, style);
        proof {
            lemma_line_cells_step(row as nat, col as nat, upto, style);
        }
        if text[i] != ' ' {
            let cell = GlyphCell { row, col: col + i, ch: text[i], style };
            assert((col + upto.len() - 1) as nat == col + i);
            assert(cell == cell_at(row as nat, (col + upto.len() - 1) as nat, upto.last(), style));
            assert(next_cells == prev_cells.push(cell));
            cells.push(cell);
            assert(cells@ =~= start + next_cells);
        } else {
            assert(next_cells == prev_cells);
        }
        i = i + 1;
    }
    assert(text@.take(i as int) =~= text@);
}

/// Names of the configured visualizations, as character sequences.
pub open spec fn name_views(names: Seq<&'static str>) -> Seq<Seq<char>> {
    names.map_values(|s: &'static str| s@)
}

impl Overlay {
    /// The characters the panel shows, each at its character cell: `None`
    /// while the overlay is hidden.
    pub fn panel_glyphs(&self, config: &OverlayConfig) -> (r: Option<Vec<GlyphCell>>)
        requires
            config.viz_enabled@.len() >= config.viz_names@.len(),
            config.viz_names@.len() <= usize::MAX / 2,
            forall|i: int|
                0 <= i < config.viz_names@.len() ==> (#[trigger] config.viz_names@[i])@.len()
                    <= usize::MAX / 2,
        ensures
            !self@.visible ==> r is None,
            self@.visible ==> (r matches Some(v) && v@ == lines_cells(
                panel_lines(
                    self@.cursor,
                    name_views(config.viz_names@),
                    config.viz_enabled@,
                    config.duration_secs,
                ),
            )),
    {
        if !self.visible {
            return None;
        }
        let ghost lines = panel_lines(
            self@.cursor,
            name_views(config.viz_names@),
            config.viz_enabled@,
            config.duration_secs,
        );
        let n = config.viz_names.len();
        let mut cells: Vec<GlyphCell> = Vec::new();
        proof {
            reveal_strlit(" MILKDROP CONFIG");
            reveal_strlit("` close ");
            reveal_strlit(" VISUALIZATIONS");
            reveal_strlit(" CYCLE DURATION");
            reveal_strlit("   < ");
            reveal_strlit("s >");
        }
        let t0 = chars_of(" MILKDROP CONFIG");
        push_line(&mut cells, 0, 0, &t0, TextStyle::Normal);
        let t1 = chars_of("` close ");
        push_line(&mut cells, 0, PANEL_COLS - 8, &t1, TextStyle::Dim);
        let t2 = chars_of(" VISUALIZATIONS");
        push_line(&mut cells, 2, 0, &t2, TextStyle::Dim);
        proof {
            lemma_lines_cells_take(lines, 0);
            lemma_lines_cells_take(lines, 1);
            lemma_lines_cells_take(lines, 2);
            assert(lines.take(0) =~= Seq::<PanelLine>::empty());
            assert(lines[0].text == t0@);
            assert(lines[1].text == t1@);
            assert(lines[2].text == t2@);
            assert(lines[1].col == PANEL_COLS - 8);
            assert(cells@ =~= lines_cells(lines.take(3)));
        }
        let mut i: usize = 0;
        while i < n
            invariant
                n == config.viz_names@.len(),
                n <= usize::MAX / 2,
                config.viz_enabled@.len() >= n,
                forall|j: int|
                    0 <= j < n ==> (#[trigger] config.viz_names@[j])@.len() <= usize::MAX / 2,
                lines == panel_lines(
                    self@.cursor,
                    name_views(config.viz_names@),
                    config.viz_enabled@,
                    config.duration_secs,
                ),
                lines.len() == n + 5,
                i <= n,
                cells@ == lines_cells(lines.take(3 + i)),
            decreases n - i,
        {
            let mut text: Vec<char> = Vec::new();
            let selected = i == self.cursor;
            if selected {
                append_chars(&mut text, " > ");
            } else {
                append_chars(&mut text, "   ");
            }
            if config.viz_enabled[i] {
                append_chars(&mut text, "[x] ");
            } else {
                append_chars(&mut text, "[ ] ");
            }
            append_chars(&mut text, config.viz_names[i]);
            let style = if selected {
                TextStyle::Highlight
            } else {
                TextStyle::Normal
            };
            proof {
                reveal_strlit(" > ");
                reveal_strlit("   ");
                reveal_strlit("[x] ");
                reveal_strlit("[ ] ");
                let line = lines[3 + i];
                assert(line == viz_line(i as nat, self@.cursor, config.viz_enabled@[i as int], name_views(config.viz_names@)[i as int]));
                assert(text@ =~= line.text);
                lemma_lines_cells_take(lines, 3 + i);
            }
            push_line(&mut cells, 3 + i, 0, &text, style);
            i = i + 1;
        }
        let t3 = chars_of(" CYCLE DURATION");
        push_line(&mut cells, 4 + n, 0, &t3, TextStyle::Dim);
        let mut t4: Vec<char> = Vec::new();
        append_chars(&mut t4, "   < ");
        let digits = decimal_chars(config.duration_secs);
        let mut k: usize = 0;
        let ghost before_digits = t4@;
        while k < digits.len()
            invariant
                t4@ == before_digits + digits@.take(k as int),
                k <= digits@.len(),
            decreases digits@.len() - k,
        {
            t4.push(digits[k]);
            assert(digits@.take(k + 1) =~= digits@.take(k as int).push(digits@[k as int]));
            k = k + 1;
        }
        assert(digits@.take(k as int) =~= digits@);
        append_chars(&mut t4, "s >");
        proof {
            lemma_lines_cells_take(lines, n + 3);
            lemma_lines_cells_take(lines, n + 4);
            assert(lines.take(n + 5) =~= lines);
            assert(lines[n + 3].text == t3@);
            assert(t4@ =~= lines[n + 4].text);
        }
        proof {
            reveal_with_fuel(pow10, 21);
            lemma_decimal_len(config.duration_secs as nat, 20);
        }
        push_line(&mut cells, 5 + n, 0, &t4, TextStyle::Normal);
        Some(cells)
    }
}

fn is_backtick(key: &OverlayKey) -> (b: bool)
    ensures
        b == is_toggle_key(*key),
{
    match key {
        OverlayKey::Character(s) => {
            let t = s.as_str();
            if t.unicode_len() == 1 {
                let c = t.get_char(0);
                proof {
                    if c == '`' {
                        assert(s@ =~= seq!['`']);
                    }
                }
                c == '`'
            } else {
                false
            }
        },
        _ => false,
    }
}

fn shorter_duration_exec(d: u64) -> (r: u64)
    ensures
        r == shorter_duration(d),
{
    let less = d.saturating_sub(DURATION_STEP_SECS);
    if less < MIN_DURATION_SECS {
        MIN_DURATION_SECS
    } else {
        less
    }
}

fn longer_duration_exec(d: u64) -> (r: u64)
    ensures
        r == longer_duration(d),
{
    let more = d.saturating_add(DURATION_STEP_SECS);
    if more > MAX_DURATION_SECS {
        MAX_DURATION_SECS
    } else {
        more
    }
}

/// Pressing the backtick twice leaves the overlay as visible as it was.
pub proof fn lemma_toggle_twice_restores_visibility(
    m: OverlayModel,
    key: OverlayKey,
    num_viz: nat,
    duration_secs: u64,
)
    requires
        is_toggle_key(key),
    ensures
        key_step(
            key_step(m, true, key, num_viz, duration_secs).0,
            true,
            key,
            num_viz,
            duration_secs,
        ).0.visible == m.visible,
{
}

/// Released keys, and any key but the backtick while hidden, change nothing
/// and are not consumed.
pub proof fn lemma_ignored_keys(
    m: OverlayModel,
    pressed: bool,
    key: OverlayKey,
    num_viz: nat,
    duration_secs: u64,
)
    requires
        !pressed || (!m.visible && !is_toggle_key(key)),
    ensures
        key_step(m, pressed, key, num_viz, duration_secs) == (m, false, None::<OverlayAction>),
{
}

/// While the overlay is visible it consumes every pressed key.
pub proof fn lemma_visible_consumes(m: OverlayModel, key: OverlayKey, num_viz: nat, duration_secs: u64)
    requires
        m.visible,
    ensures
        key_step(m, true, key, num_viz, duration_secs).1,
{
}

/// A requested duration lies within 5..=600 seconds whenever the current
/// one does.
pub proof fn lemma_duration_in_range(
    m: OverlayModel,
    pressed: bool,
    key: OverlayKey,
    num_viz: nat,
    duration_secs: u64,
)
    requires
        MIN_DURATION_SECS <= duration_secs <= MAX_DURATION_SECS,
    ensures
        key_step(m, pressed, key, num_viz, duration_secs).2 matches Some(
            OverlayAction::SetDuration(d),
        ) ==> MIN_DURATION_SECS <= d <= MAX_DURATION_SECS,
{
}

/// The horizontal arrows step the cycle duration by five seconds: while the
/// overlay is shown, right asks for five seconds more but never more than
/// 600, left asks for five seconds less but never less than five. Neither
/// moves the cursor or hides the overlay, and both are consumed.
pub proof fn lemma_duration_steps(m: OverlayModel, num_viz: nat, d: u64)
    requires
        m.visible,
    ensures
        key_step(m, true, OverlayKey::ArrowRight, num_viz, d) == (
            m,
            true,
            Some(OverlayAction::SetDuration(if d <= 595 { (d + 5) as u64 } else { 600u64 })),
        ),
        key_step(m, true, OverlayKey::ArrowLeft, num_viz, d) == (
            m,
            true,
            Some(OverlayAction::SetDuration(if d >= 10 { (d - 5) as u64 } else { 5u64 })),
        ),
{
}

/// While the overlay is shown, up and down move the cursor by one entry
/// without leaving the list, space and enter toggle the entry under the
/// cursor, and none of them changes the visibility; every such key is
/// consumed.
pub proof fn lemma_cursor_keys(m: OverlayModel, num_viz: nat, d: u64)
    requires
        m.visible,
    ensures
        key_step(m, true, OverlayKey::ArrowUp, num_viz, d) == (
            OverlayModel { visible: true, cursor: if m.cursor >= 1 { (m.cursor - 1) as nat } else { 0 } },
            true,
            None::<OverlayAction>,
        ),
        key_step(m, true, OverlayKey::ArrowDown, num_viz, d) == (
            OverlayModel {
                visible: true,
                cursor: if m.cursor + 1 < num_viz { m.cursor + 1 } else { m.cursor },
            },
            true,
            None::<OverlayAction>,
        ),
        key_step(m, true, OverlayKey::Space, num_viz, d) == (
            m,
            true,
            Some(OverlayAction::ToggleViz(m.cursor as usize)),
        ),
        key_step(m, true, OverlayKey::Enter, num_viz, d) == (
            m,
            true,
            Some(OverlayAction::ToggleViz(m.cursor as usize)),
        ),
{
}

/// Once shown over a non-empty list, the cursor stays on an entry, and
/// toggling always names an existing entry.
pub proof fn lemma_cursor_in_range(
    m: OverlayModel,
    pressed: bool,
    key: OverlayKey,
    num_viz: nat,
    duration_secs: u64,
)
    requires
        num_viz > 0,
        m.visible ==> m.cursor < num_viz,
    ensures
        ({
            let (m2, _, action) = key_step(m, pressed, key, num_viz, duration_secs);
            &&& m2.visible ==> m2.cursor < num_viz
            &&& action matches Some(OverlayAction::ToggleViz(i)) ==> i < num_viz
        }),
{
}

} // verus!

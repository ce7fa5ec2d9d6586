//! The inline picker's decisions: which row is selected, where the popup
//! goes, which results are visible, how lines are cut to the terminal
//! width, what each key does, and how the terminal's cursor report reads.

use vstd::prelude::*;
use crate::models::ProjectType;
use crate::text;

verus! {

broadcast use vstd::string::group_string_axioms;

/// The most results the popup shows at once.
pub const MAX_VISIBLE_ITEMS: usize = 8;

// ---------------------------------------------------------------------------
// Selection
// ---------------------------------------------------------------------------

/// The selection after new results arrive: the first result, if any.
pub fn initial_selection(len: usize) -> (r: Option<usize>)
    ensures
        r == (if len == 0 {
            None
        } else {
            Some(0usize)
        }),
{
    if len == 0 {
        None
    } else {
        Some(0)
    }
}

/// The selection after moving down: the next result, wrapping from the last
/// to the first; with no results it stays as it was.
pub open spec fn spec_next_selection(selected: Option<usize>, len: usize) -> Option<usize> {
    if len == 0 {
        selected
    } else {
        match selected {
            Some(i) => if i >= len - 1 {
                Some(0usize)
            } else {
                Some((i + 1) as usize)
            },
            None => Some(0usize),
        }
    }
}

/// The selection after moving up: the previous result, wrapping from the
/// first to the last; with no results it stays as it was.
pub open spec fn spec_previous_selection(selected: Option<usize>, len: usize) -> Option<usize> {
    if len == 0 {
        selected
    } else {
        match selected {
            Some(i) => if i == 0 {
                Some((len - 1) as usize)
            } else {
                Some((i - 1) as usize)
            },
            None => Some(0usize),
        }
    }
}

/// The selection after moving down (see [`spec_next_selection`]).
pub fn next_selection(selected: Option<usize>, len: usize) -> (r: Option<usize>)
    ensures
        r == spec_next_selection(selected, len),
{
    if len == 0 {
        return selected;
    }
    match selected {
        Some(i) => if i >= len - 1 {
            Some(0)
        } else {
            Some(i + 1)
        },
        None => Some(0),
    }
}

/// The selection after moving up (see [`spec_previous_selection`]).
pub fn previous_selection(selected: Option<usize>, len: usize) -> (r: Option<usize>)
    ensures
        r == spec_previous_selection(selected, len),
{
    if len == 0 {
        return selected;
    }
    match selected {
        Some(i) => if i == 0 {
            Some(len - 1)
        } else {
            Some(i - 1)
        },
        None => Some(0),
    }
}

// ---------------------------------------------------------------------------
// Layout
// ---------------------------------------------------------------------------

/// Where the popup goes: its first row and its number of rows.
#[derive(Debug, Clone, Copy)]
pub struct PopupLayout {
    pub top_row: u16,
    pub height: u16,
}

/// The popup's place for a screen of `rows` rows, a prompt on `anchor_row`
/// and a wish for `desired_height` rows: below the prompt if it fits there,
/// else above, else on the roomier side with as many rows as that side has
/// (at least one).
pub open spec fn spec_compute_layout(rows: u16, anchor_row: u16, desired_height: u16) -> PopupLayout {
    let above = anchor_row as int;
    let below = if rows >= anchor_row + 1 {
        rows - (anchor_row + 1)
    } else {
        0
    };
    if below >= desired_height {
        PopupLayout { top_row: (anchor_row + 1) as u16, height: desired_height }
    } else if above >= desired_height {
        PopupLayout { top_row: (anchor_row - desired_height) as u16, height: desired_height }
    } else if below >= above {
        PopupLayout { top_row: (anchor_row + 1) as u16, height: if below >= 1 { below as u16 } else { 1 } }
    } else {
        let height: int = if above >= 1 { above } else { 1 };
        PopupLayout { top_row: if anchor_row >= height { (anchor_row - height) as u16 } else { 0 }, height: height as u16 }
    }
}

/// The popup's place (see [`spec_compute_layout`]). It never covers the
/// prompt row, and on a screen of at least two rows that holds the prompt
/// it stays on the screen.
pub fn compute_layout(rows: u16, anchor_row: u16, desired_height: u16) -> (r: PopupLayout)
    requires
        anchor_row < u16::MAX,
    ensures
        r == spec_compute_layout(rows, anchor_row, desired_height),
        r.top_row > anchor_row || r.top_row + r.height <= anchor_row,
        rows >= 2 && anchor_row < rows ==> r.top_row + r.height <= rows,
        r.height >= 1 || r.height == desired_height,
{
    let above_space = anchor_row;
    let below_space = rows.saturating_sub(anchor_row + 1);
    if below_space >= desired_height {
        return PopupLayout { top_row: anchor_row + 1, height: desired_height };
    }
    if above_space >= desired_height {
        return PopupLayout { top_row: anchor_row - desired_height, height: desired_height };
    }
    if below_space >= above_space {
        PopupLayout { top_row: anchor_row + 1, height: if below_space >= 1 { below_space } else { 1 } }
    } else {
        let height = if above_space >= 1 { above_space } else { 1 };
        PopupLayout { top_row: anchor_row.saturating_sub(height), height }
    }
}

/// The popup's wished height: a header row and one row per result, between
/// one and [`MAX_VISIBLE_ITEMS`] results.
pub fn desired_popup_height(result_count: usize) -> (r: u16)
    ensures
        r as int == 1 + (if result_count < 1 {
            1
        } else if result_count > MAX_VISIBLE_ITEMS {
            MAX_VISIBLE_ITEMS as int
        } else {
            result_count as int
        }),
{
    let items = if result_count < 1 {
        1
    } else if result_count > MAX_VISIBLE_ITEMS {
        MAX_VISIBLE_ITEMS
    } else {
        result_count
    };
    1 + (items as u16)
}

/// The first visible result when `visible` rows show `len` results around
/// the selection: all from the start if they fit, else a window that
/// centres the selection as far as the ends allow.
pub open spec fn spec_window_start(len: usize, visible: usize, selected: Option<usize>) -> int {
    if len <= visible {
        0
    } else {
        let sel = match selected {
            Some(s) => s as int,
            None => 0,
        };
        let centered = if sel >= visible / 2 {
            sel - visible / 2
        } else {
            0
        };
        if centered <= len - visible {
            centered
        } else {
            len - visible
        }
    }
}

/// The first visible result (see [`spec_window_start`]). The window stays
/// within the results, and holds the selected result when there is one.
pub fn window_start(len: usize, visible: usize, selected: Option<usize>) -> (r: usize)
    ensures
        r == spec_window_start(len, visible, selected),
        len > visible ==> r + visible <= len,
        visible >= 1 && selected is Some && selected->0 < len ==> r <= selected->0 < r + visible,
{
    if len <= visible {
        return 0;
    }
    let sel = match selected {
        Some(s) => s,
        None => 0,
    };
    let centered = sel.saturating_sub(visible / 2);
    if centered <= len - visible {
        centered
    } else {
        len - visible
    }
}

// ---------------------------------------------------------------------------
// Text
// ---------------------------------------------------------------------------

/// `s` cut to `width` characters: unchanged if it fits, dots if the width
/// is three or less, else its first `width - 3` characters and `...`.
pub open spec fn spec_truncate_for_width(s: Seq<char>, width: usize) -> Seq<char> {
    if width == 0 {
        seq![]
    } else if s.len() <= width {
        s
    } else if width <= 3 {
        Seq::new(width as nat, |i: int| '.')
    } else {
        s.take(width - 3) + seq!['.', '.', '.']
    }
}

/// `input` cut to `width` characters (see [`spec_truncate_for_width`]).
pub fn truncate_for_width(input: &str, width: usize) -> (r: String)
    ensures
        r@ == spec_truncate_for_width(input@, width),
        r@.len() <= width,
{
    if width == 0 {
        return String::new();
    }
    let chars = text::str_to_chars(input);
    if chars.len() <= width {
        return text::chars_to_string(chars.as_slice());
    }
    let mut out: Vec<char> = Vec::new();
    if width <= 3 {
        let mut i: usize = 0;
        while i < width
            invariant
                i <= width,
                out@ == Seq::new(i as nat, |j: int| '.'),
            decreases width - i,
        {
            out.push('.');
            assert(out@ =~= Seq::new((i + 1) as nat, |j: int| '.'));
            i = i + 1;
        }
        return text::chars_to_string(out.as_slice());
    }
    let mut i: usize = 0;
    while i < width - 3
        invariant
            width > 3,
            width - 3 < chars@.len(),
            i <= width - 3,
            out@ == chars@.take(i as int),
        decreases width - 3 - i,
    {
        out.push(chars[i]);
        assert(chars@.take(i + 1) == chars@.take(i as int).push(chars@[i as int]));
        i = i + 1;
    }
    out.push('.');
    out.push('.');
    out.push('.');
    assert(out@ =~= chars@.take(width - 3) + seq!['.', '.', '.']);
    text::chars_to_string(out.as_slice())
}

/// The short label for a project type shown before each result.
pub open spec fn spec_project_icon(pt: ProjectType) -> Seq<char> {
    match pt {
        ProjectType::Git => "[git]"@,
        ProjectType::Rust => "[rs]"@,
        ProjectType::Node => "[js]"@,
        ProjectType::Python => "[py]"@,
        ProjectType::Docker => "[dk]"@,
        ProjectType::Unknown => "[dir]"@,
    }
}

/// The short label for a project type.
pub fn project_icon(pt: ProjectType) -> (r: &'static str)
    ensures
        r@ == spec_project_icon(pt),
{
    match pt {
        ProjectType::Git => "[git]",
        ProjectType::Rust => "[rs]",
        ProjectType::Node => "[js]",
        ProjectType::Python => "[py]",
        ProjectType::Docker => "[dk]",
        ProjectType::Unknown => "[dir]",
    }
}

/// Appends the characters of `s` to `out`.
fn append_str(out: &mut Vec<char>, s: &str)
    ensures
        final(out)@ == old(out)@ + s@,
{
    let v = text::str_to_chars(s);
    let mut i: usize = 0;
    while i < v.len()
        invariant
            i <= v@.len(),
            v@ == s@,
            out@ == old(out)@ + v@.take(i as int),
        decreases v@.len() - i,
    {
        out.push(v[i]);
        assert(v@.take(i + 1) == v@.take(i as int).push(v@[i as int]));
        assert(forall|u: Seq<char>, w: Seq<char>, c: char| (u + w).push(c) == u + w.push(c));
        i = i + 1;
    }
    assert(v@.take(v@.len() as int) == v@);
}

/// The line shown for a result: its project label, a space, its name, two
/// spaces and its path.
pub open spec fn spec_result_line(pt: ProjectType, name: Seq<char>, path: Seq<char>) -> Seq<char> {
    spec_project_icon(pt) + seq![' '] + name + seq![' ', ' '] + path
}

/// The line shown for a result (see [`spec_result_line`]).
pub fn format_result_line(pt: ProjectType, name: &str, path: &str) -> (r: String)
    ensures
        r@ == spec_result_line(pt, name@, path@),
{
    let mut out: Vec<char> = Vec::new();
    append_str(&mut out, project_icon(pt));
    out.push(' ');
    append_str(&mut out, name);
    out.push(' ');
    out.push(' ');
    append_str(&mut out, path);
    assert(out@ =~= spec_result_line(pt, name@, path@));
    text::chars_to_string(out.as_slice())
}

/// The popup's header: `goto: ` and the query.
pub fn header_line(query: &str) -> (r: String)
    ensures
        r@ == "goto: "@ + query@,
{
    let mut out: Vec<char> = Vec::new();
    append_str(&mut out, "goto: ");
    append_str(&mut out, query);
    text::chars_to_string(out.as_slice())
}

/// The terminal sequence that moves the cursor to column `col` and row
/// `row`, both counted from zero: `ESC [ row+1 ; col+1 H`.
pub fn cursor_move_sequence(col: u16, row: u16) -> (r: String)
    requires
        col < u16::MAX,
        row < u16::MAX,
    ensures
        r@ == seq!['\u{1b}', '['] + text::decimal((row + 1) as nat) + seq![';'] + text::decimal(
            (col + 1) as nat,
        ) + seq!['H'],
{
    let mut out: Vec<char> = Vec::new();
    out.push('\u{1b}');
    out.push('[');
    let r = text::decimal_string((row + 1) as u64);
    let mut i: usize = 0;
    let ghost start = out@;
    while i < r.len()
        invariant
            i <= r@.len(),
            out@ == start + r@.take(i as int),
        decreases r@.len() - i,
    {
        out.push(r[i]);
        assert(r@.take(i + 1) == r@.take(i as int).push(r@[i as int]));
        i = i + 1;
    }
    assert(r@.take(r@.len() as int) == r@);
    out.push(';');
    let c = text::decimal_string((col + 1) as u64);
    let mut j: usize = 0;
    let ghost mid = out@;
    while j < c.len()
        invariant
            j <= c@.len(),
            out@ == mid + c@.take(j as int),
        decreases c@.len() - j,
    {
        out.push(c[j]);
        assert(c@.take(j + 1) == c@.take(j as int).push(c@[j as int]));
        j = j + 1;
    }
    assert(c@.take(c@.len() as int) == c@);
    out.push('H');
    assert(out@ =~= seq!['\u{1b}', '['] + text::decimal((row + 1) as nat) + seq![';'] + text::decimal(
        (col + 1) as nat,
    ) + seq!['H']);
    text::chars_to_string(out.as_slice())
}

} // verus!

verus! {

// ---------------------------------------------------------------------------
// Keys
// ---------------------------------------------------------------------------

/// A key the picker reads.
#[derive(Debug, Clone, Copy)]
pub enum Key {
    Char(char),
    Up,
    Down,
    Enter,
    Esc,
    Backspace,
    Other,
}

/// A key press: the key and whether Control was held.
#[derive(Debug, Clone, Copy)]
pub struct KeyPress {
    pub key: Key,
    pub ctrl: bool,
}

/// What the picker does after a key press.
#[derive(Debug, Clone, Copy, PartialEq, Eq, Structural)]
pub enum PickerAction {
    /// Leave without a choice.
    Cancel,
    /// Leave with the selected result.
    Accept,
    /// Select the previous result.
    SelectPrevious,
    /// Select the next result.
    SelectNext,
    /// The query changed: search again.
    Refresh,
    /// Nothing.
    Ignore,
}

/// The index of the last space in `q`, if any.
pub open spec fn last_space_index(q: Seq<char>) -> Option<int>
    decreases q.len(),
{
    if q.len() == 0 {
        None
    } else if q.last() == ' ' {
        Some(q.len() - 1)
    } else {
        last_space_index(q.drop_last())
    }
}

/// The action a key press asks for.
pub open spec fn spec_key_action(press: KeyPress) -> PickerAction {
    let ctrl = press.ctrl;
    match press.key {
        Key::Char(c) => if ctrl && c == 'c' {
            PickerAction::Cancel
        } else if c == 'k' || (ctrl && c == 'p') {
            PickerAction::SelectPrevious
        } else if c == 'j' || (ctrl && c == 'n') {
            PickerAction::SelectNext
        } else {
            PickerAction::Refresh
        },
        Key::Esc => PickerAction::Cancel,
        Key::Enter => PickerAction::Accept,
        Key::Up => if ctrl {
            PickerAction::Ignore
        } else {
            PickerAction::SelectPrevious
        },
        Key::Down => if ctrl {
            PickerAction::Ignore
        } else {
            PickerAction::SelectNext
        },
        Key::Backspace => PickerAction::Refresh,
        Key::Other => PickerAction::Ignore,
    }
}

/// The query after a key press: Control-U clears it, Control-W cuts it at
/// its last space (or clears it), Backspace drops its last character, any
/// other character that does not navigate or cancel is appended.
pub open spec fn spec_query_after_key(q: Seq<char>, press: KeyPress) -> Seq<char> {
    if spec_key_action(press) != PickerAction::Refresh {
        q
    } else {
        match press.key {
            Key::Char(c) => if press.ctrl && c == 'u' {
                seq![]
            } else if press.ctrl && c == 'w' {
                match last_space_index(q) {
                    Some(i) => q.take(i),
                    None => seq![],
                }
            } else {
                q.push(c)
            },
            Key::Backspace => if q.len() > 0 {
                q.drop_last()
            } else {
                q
            },
            _ => q,
        }
    }
}

proof fn lemma_last_space_bounds(q: Seq<char>)
    ensures
        last_space_index(q) matches Some(i) ==> 0 <= i < q.len() && q[i] == ' ',
    decreases q.len(),
{
    if q.len() > 0 && q.last() != ' ' {
        lemma_last_space_bounds(q.drop_last());
    }
}

/// The index of the last space in `v`, if any.
fn last_space(v: &[char]) -> (r: Option<usize>)
    ensures
        match r {
            Some(i) => last_space_index(v@) == Some(i as int) && i < v@.len(),
            None => last_space_index(v@) is None,
        },
{
    proof {
        lemma_last_space_bounds(v@);
    }
    let mut n = v.len();
    assert(v@.take(n as int) == v@);
    while n > 0
        invariant
            n <= v@.len(),
            last_space_index(v@) == last_space_index(v@.take(n as int)),
        decreases n,
    {
        assert(v@.take(n as int).last() == v@[n - 1]);
        if v[n - 1] == ' ' {
            return Some(n - 1);
        }
        assert(v@.take(n as int).drop_last() == v@.take(n - 1));
        n = n - 1;
    }
    None
}

/// Applies a key press to the picker's query and says what the picker does
/// next (see [`spec_key_action`] and [`spec_query_after_key`]).
pub fn handle_key(query: &mut String, press: KeyPress) -> (r: PickerAction)
    ensures
        r == spec_key_action(press),
        final(query)@ == spec_query_after_key(old(query)@, press),
{
    let action = match press.key {
        Key::Char(c) => if press.ctrl && c == 'c' {
            PickerAction::Cancel
        } else if c == 'k' || (press.ctrl && c == 'p') {
            PickerAction::SelectPrevious
        } else if c == 'j' || (press.ctrl && c == 'n') {
            PickerAction::SelectNext
        } else {
            PickerAction::Refresh
        },
        Key::Esc => PickerAction::Cancel,
        Key::Enter => PickerAction::Accept,
        Key::Up => if press.ctrl {
            PickerAction::Ignore
        } else {
            PickerAction::SelectPrevious
        },
        Key::Down => if press.ctrl {
            PickerAction::Ignore
        } else {
            PickerAction::SelectNext
        },
        Key::Backspace => PickerAction::Refresh,
        Key::Other => PickerAction::Ignore,
    };
    if action != PickerAction::Refresh {
        return action;
    }
    match press.key {
        Key::Char(c) => {
            if press.ctrl && c == 'u' {
                *query = String::new();
            } else if press.ctrl && c == 'w' {
                let v = text::str_to_chars(query.as_str());
                match last_space(v.as_slice()) {
                    Some(i) => {
                        *query = text::range_to_string(v.as_slice(), 0, i);
                    },
                    None => {
                        *query = String::new();
                    },
                }
            } else {
                text::push_char(query, c);
            }
        },
        Key::Backspace => {
            let v = text::str_to_chars(query.as_str());
            if v.len() > 0 {
                *query = text::range_to_string(v.as_slice(), 0, v.len() - 1);
            }
        },
        _ => {},
    }
    action
}

} // verus!

verus! {

// ---------------------------------------------------------------------------
// Cursor report
// ---------------------------------------------------------------------------

/// `s` without its leading `ESC [` pairs.
pub open spec fn strip_csi_prefixes(s: Seq<u8>) -> Seq<u8>
    decreases s.len(),
{
    if s.len() >= 2 && s[0] == 0x1bu8 && s[1] == 0x5bu8 {
        strip_csi_prefixes(s.skip(2))
    } else {
        s
    }
}

/// `s` without its trailing `R`s.
pub open spec fn strip_trailing_rs(s: Seq<u8>) -> Seq<u8>
    decreases s.len(),
{
    if s.len() > 0 && s.last() == 0x52u8 {
        strip_trailing_rs(s.drop_last())
    } else {
        s
    }
}

/// The index of the first `;` in `s` at or after `i`, or the length of `s`.
pub open spec fn next_semicolon(s: Seq<u8>, i: int) -> int
    decreases s.len() - i,
{
    if i >= s.len() {
        s.len() as int
    } else if s[i] == 0x3bu8 {
        i
    } else {
        next_semicolon(s, i + 1)
    }
}

/// The byte is an ASCII digit.
pub open spec fn is_digit(b: u8) -> bool {
    0x30 <= b <= 0x39
}

/// The value of a string of ASCII digits.
pub open spec fn digits_value(d: Seq<u8>) -> nat
    decreases d.len(),
{
    if d.len() == 0 {
        0
    } else {
        digits_value(d.drop_last()) * 10 + (d.last() - 0x30) as nat
    }
}

/// Every byte is an ASCII digit.
pub open spec fn all_digits(d: Seq<u8>) -> bool {
    forall|i: int| 0 <= i < d.len() ==> is_digit(#[trigger] d[i])
}

/// The field without a leading `+`.
pub open spec fn unsigned_digits(s: Seq<u8>) -> Seq<u8> {
    if s.len() > 0 && s[0] == 0x2bu8 {
        s.drop_first()
    } else {
        s
    }
}

/// The number a field holds, read as `str::parse::<u16>` does: an optional
/// `+`, then one or more ASCII digits, with a value that fits in 16 bits.
pub open spec fn spec_parse_u16(s: Seq<u8>) -> Option<u16> {
    let d = unsigned_digits(s);
    if d.len() == 0 || !all_digits(d) {
        None
    } else if digits_value(d) <= u16::MAX {
        Some(digits_value(d) as u16)
    } else {
        None
    }
}

/// The cursor position, as `(column, row)` counted from zero, that a
/// terminal's report `ESC [ row ; col R` gives: the report is stripped of
/// its leading `ESC [` pairs and trailing `R`s and split at `;`; a field
/// that is missing or does not hold a 16-bit number counts as 1.
pub open spec fn spec_cursor_report(report: Seq<u8>) -> (u16, u16) {
    let s = strip_trailing_rs(strip_csi_prefixes(report));
    let i = next_semicolon(s, 0);
    let row = match spec_parse_u16(s.subrange(0, i)) {
        Some(v) => v,
        None => 1u16,
    };
    let col = if i < s.len() {
        match spec_parse_u16(s.subrange(i + 1, next_semicolon(s, i + 1))) {
            Some(v) => v,
            None => 1u16,
        }
    } else {
        1u16
    };
    (if col >= 1 { (col - 1) as u16 } else { 0u16 }, if row >= 1 { (row - 1) as u16 } else { 0u16 })
}

proof fn lemma_next_semicolon_bounds(s: Seq<u8>, i: int)
    requires
        0 <= i,
    ensures
        i <= next_semicolon(s, i) || (i > s.len() && next_semicolon(s, i) == s.len()),
        next_semicolon(s, i) <= s.len() || next_semicolon(s, i) == i,
    decreases s.len() - i,
{
    if i < s.len() && s[i] != 0x3bu8 {
        lemma_next_semicolon_bounds(s, i + 1);
    }
}

/// The index of the first `;` in `s[lo..hi]` at or after `i`, or `hi`.
fn next_semicolon_exec(s: &[u8], lo: usize, hi: usize, i: usize) -> (r: usize)
    requires
        lo <= i <= hi <= s@.len(),
    ensures
        i <= r <= hi,
        lo + next_semicolon(s@.subrange(lo as int, hi as int), i - lo) == r,
{
    let ghost t = s@.subrange(lo as int, hi as int);
    let mut j = i;
    while j < hi && s[j] != 0x3b
        invariant
            lo <= i <= j <= hi <= s@.len(),
            t == s@.subrange(lo as int, hi as int),
            next_semicolon(t, i - lo) == next_semicolon(t, j - lo),
        decreases hi - j,
    {
        j = j + 1;
    }
    j
}

/// The number a field `s[a..b]` holds (see [`spec_parse_u16`]).
pub fn parse_u16_field(s: &[u8], a: usize, b: usize) -> (r: Option<u16>)
    requires
        a <= b <= s@.len(),
    ensures
        r == spec_parse_u16(s@.subrange(a as int, b as int)),
{
    let ghost f = s@.subrange(a as int, b as int);
    let start = if a < b && s[a] == 0x2b { a + 1 } else { a };
    let ghost d = s@.subrange(start as int, b as int);
    assert(d == unsigned_digits(f));
    if start == b {
        return None;
    }
    let mut acc: u32 = 0;
    let mut k = start;
    while k < b
        invariant
            a <= start <= k <= b <= s@.len(),
            d == s@.subrange(start as int, b as int),
            f == s@.subrange(a as int, b as int),
            d == unsigned_digits(f),
            forall|m: int| 0 <= m < k - start ==> is_digit(#[trigger] d[m]),
            acc as int == if digits_value(d.take(k - start)) <= 65536 {
                digits_value(d.take(k - start)) as int
            } else {
                65536
            },
        decreases b - k,
    {
        let c = s[k];
        if c < 0x30 || c > 0x39 {
            assert(d[k - start] == c);
            assert(!is_digit(d[k - start]));
            assert(d.len() > 0);
            assert(!all_digits(d));
            return None;
        }
        proof {
            let p = d.take(k - start + 1);
            assert(p.drop_last() == d.take(k - start));
            assert(p.last() == c);
        }
        let v = acc * 10 + (c - 0x30) as u32;
        acc = if v > 65536 { 65536 } else { v };
        k = k + 1;
    }
    assert(d.take(b - start) == d);
    assert(all_digits(d));
    if acc <= 65535 {
        Some(acc as u16)
    } else {
        None
    }
}

/// The span of the report left after stripping its leading `ESC [` pairs
/// and trailing `R`s.
fn report_body(report: &[u8]) -> (r: (usize, usize))
    ensures
        r.0 <= r.1 <= report@.len(),
        report@.subrange(r.0 as int, r.1 as int) == strip_trailing_rs(strip_csi_prefixes(report@)),
{
    let n = report.len();
    let mut lo: usize = 0;
    assert(report@.subrange(0, n as int) == report@);
    while n - lo >= 2 && report[lo] == 0x1b && report[lo + 1] == 0x5b
        invariant
            lo <= n == report@.len(),
            strip_csi_prefixes(report@) == strip_csi_prefixes(report@.subrange(lo as int, n as int)),
        decreases n - lo,
    {
        assert(report@.subrange(lo as int, n as int).skip(2) == report@.subrange(lo + 2, n as int));
        lo = lo + 2;
    }
    let mut hi: usize = n;
    while hi > lo && report[hi - 1] == 0x52
        invariant
            lo <= hi <= n == report@.len(),
            strip_csi_prefixes(report@) == report@.subrange(lo as int, n as int),
            strip_trailing_rs(report@.subrange(lo as int, n as int)) == strip_trailing_rs(
                report@.subrange(lo as int, hi as int),
            ),
        decreases hi - lo,
    {
        assert(report@.subrange(lo as int, hi as int).drop_last() == report@.subrange(lo as int, hi - 1));
        hi = hi - 1;
    }
    (lo, hi)
}

/// The cursor position a terminal reports (see [`spec_cursor_report`]).
pub fn parse_cursor_report(report: &[u8]) -> (r: (u16, u16))
    ensures
        r == spec_cursor_report(report@),
{
    let (lo, hi) = report_body(report);
    let ghost s = report@.subrange(lo as int, hi as int);
    let i = next_semicolon_exec(report, lo, hi, lo);
    assert(report@.subrange(lo as int, i as int) == s.subrange(0, i - lo));
    let row = match parse_u16_field(report, lo, i) {
        Some(v) => v,
        None => 1,
    };
    let col = if i < hi {
        let j = next_semicolon_exec(report, lo, hi, i + 1);
        assert(report@.subrange(i + 1, j as int) == s.subrange(i - lo + 1, j - lo));
        match parse_u16_field(report, i + 1, j) {
            Some(v) => v,
            None => 1,
        }
    } else {
        1
    };
    (col.saturating_sub(1), row.saturating_sub(1))
}

} // verus!

verus! {

// ---------------------------------------------------------------------------
// Properties
// ---------------------------------------------------------------------------

/// Moving up undoes moving down, and moving down undoes moving up, for any
/// selected result.
pub proof fn law_moves_undo_each_other(i: usize, len: usize)
    requires
        i < len,
    ensures
        spec_previous_selection(spec_next_selection(Some(i), len), len) == Some(i),
        spec_next_selection(spec_previous_selection(Some(i), len), len) == Some(i),
{
}

/// With results present, a selection that names one of them, or none, names
/// one of them after a move.
pub proof fn law_moves_stay_within_results(selected: Option<usize>, len: usize)
    requires
        len > 0,
        selected matches Some(i) ==> i < len,
    ensures
        spec_next_selection(selected, len) matches Some(j) && j < len,
        spec_previous_selection(selected, len) matches Some(j) && j < len,
{
}

/// Backspace right after typing a character gives the query back.
pub proof fn law_backspace_undoes_typing(q: Seq<char>, c: char)
    requires
        spec_key_action(KeyPress { key: Key::Char(c), ctrl: false }) == PickerAction::Refresh,
    ensures
        spec_query_after_key(
            spec_query_after_key(q, KeyPress { key: Key::Char(c), ctrl: false }),
            KeyPress { key: Key::Backspace, ctrl: false },
        ) == q,
{
    assert(q.push(c).drop_last() =~= q);
}

/// Keys that navigate, accept or cancel leave the query as it was.
pub proof fn law_non_editing_keys_keep_the_query(q: Seq<char>, press: KeyPress)
    requires
        spec_key_action(press) != PickerAction::Refresh,
    ensures
        spec_query_after_key(q, press) == q,
{
}

} // verus!

verus! {

/// The selection after the picker carries out `action` on `len` results:
/// a move for the two selection actions, no change otherwise.
pub open spec fn selection_after(action: PickerAction, selected: Option<usize>, len: usize) -> Option<usize> {
    match action {
        PickerAction::SelectPrevious => spec_previous_selection(selected, len),
        PickerAction::SelectNext => spec_next_selection(selected, len),
        _ => selected,
    }
}

/// Up (without Control), `k` and Control-P select the result above, wrapping
/// from the first to the last; Down (without Control), `j` and Control-N
/// select the result below, wrapping from the last to the first.
pub proof fn law_navigation_keys_move_the_selection(i: usize, len: usize, ctrl: bool)
    requires
        i < len,
    ensures
        selection_after(spec_key_action(KeyPress { key: Key::Up, ctrl: false }), Some(i), len) == Some(
            if i == 0 { (len - 1) as usize } else { (i - 1) as usize },
        ),
        selection_after(spec_key_action(KeyPress { key: Key::Char('k'), ctrl }), Some(i), len) == Some(
            if i == 0 { (len - 1) as usize } else { (i - 1) as usize },
        ),
        selection_after(spec_key_action(KeyPress { key: Key::Char('p'), ctrl: true }), Some(i), len) == Some(
            if i == 0 { (len - 1) as usize } else { (i - 1) as usize },
        ),
        selection_after(spec_key_action(KeyPress { key: Key::Down, ctrl: false }), Some(i), len) == Some(
            if i + 1 == len { 0usize } else { (i + 1) as usize },
        ),
        selection_after(spec_key_action(KeyPress { key: Key::Char('j'), ctrl }), Some(i), len) == Some(
            if i + 1 == len { 0usize } else { (i + 1) as usize },
        ),
        selection_after(spec_key_action(KeyPress { key: Key::Char('n'), ctrl: true }), Some(i), len) == Some(
            if i + 1 == len { 0usize } else { (i + 1) as usize },
        ),
{
}

} // verus!

verus! {

/// Control-W cuts the query just before its last space, or clears it when
/// it has none.
pub proof fn law_control_w_cuts_at_the_last_space(q: Seq<char>)
    ensures
        ({
            let r = spec_query_after_key(q, KeyPress { key: Key::Char('w'), ctrl: true });
            &&& (forall|j: int| 0 <= j < q.len() ==> q[j] != ' ') ==> r == Seq::<char>::empty()
            &&& (exists|j: int| 0 <= j < q.len() && q[j] == ' ') ==> r.len() < q.len() && q[r.len() as int] == ' '
                && r == q.take(r.len() as int) && forall|j: int| r.len() < j < q.len() ==> q[j] != ' '
        }),
    decreases q.len(),
{
    lemma_last_space_bounds(q);
    lemma_last_space_is_last(q);
}

proof fn lemma_last_space_is_last(q: Seq<char>)
    ensures
        last_space_index(q) is None <==> forall|j: int| 0 <= j < q.len() ==> q[j] != ' ',
        last_space_index(q) matches Some(i) ==> forall|j: int| i < j < q.len() ==> q[j] != ' ',
    decreases q.len(),
{
    if q.len() > 0 {
        let pre = q.drop_last();
        lemma_last_space_is_last(pre);
        assert forall|j: int| 0 <= j < pre.len() implies pre[j] == q[j] by {}
        if q.last() != ' ' {
            assert(q[q.len() - 1] == q.last());
        }
    }
}

} // verus!

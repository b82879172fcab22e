//! The text of every palette output, and the small parsers the writers use.

use vstd::prelude::*;
use vstd::utf8::{encode_utf8, is_char_boundary, is_continuation_byte, valid_utf8};
use crate::color::{fmt_hex, hex_color};
use crate::text::{
    chars_of, decimal, hex_digit, is_white_space, is_whitespace, lemma_trim_end_at, push_char,
    push_decimal, string_of_range, trim_end, trim_start_char, trim_start_char_string,
};
use crate::theme::Colors;
use crate::config::OutputConfig;
use crate::{broadcast_plan, broadcast_steps, Pipeline};

verus! {

broadcast use vstd::utf8::group_utf8_lib;

/// Saving and broadcasting a palette, as a plan the caller carries out step
/// by step: create the cache directory, write `colors.json` and the kitty
/// config, then the steps of each enabled output (kitty reload; Hyprland
/// config and reload; Neovim theme and notification; cava patch and reload;
/// quickshell palette).
pub fn save_and_broadcast(outputs: &OutputConfig) -> (p: Pipeline)
    ensures
        p.steps() == broadcast_steps(*outputs),
        p.position() == 0,
        !p.is_aborted(),
{
    Pipeline::start(broadcast_plan(outputs))
}

/// The bytes left once every leading `'#'` is dropped.
pub open spec fn strip_hash_bytes(b: Seq<u8>) -> Seq<u8>
    decreases b.len(),
{
    if b.len() > 0 && b[0] == 0x23 {
        strip_hash_bytes(b.drop_first())
    } else {
        b
    }
}

/// The value of an ASCII hex digit.
pub open spec fn hex_value(x: u8) -> Option<nat> {
    if 0x30 <= x <= 0x39 {
        Some((x - 0x30) as nat)
    } else if 0x61 <= x <= 0x66 {
        Some((x - 0x57) as nat)
    } else if 0x41 <= x <= 0x46 {
        Some((x - 0x37) as nat)
    } else {
        None
    }
}

/// `u8::from_str_radix(two_bytes, 16).unwrap_or(0)`: two hex digits, or a
/// `+` and one hex digit; anything else reads as 0.
pub open spec fn radix16_pair(x: u8, y: u8) -> u8 {
    match (hex_value(x), hex_value(y)) {
        (Some(a), Some(b)) => (16 * a + b) as u8,
        (None, Some(b)) => if x == 0x2b {
            b as u8
        } else {
            0
        },
        _ => 0,
    }
}

/// The text slices `[0..2]`, `[2..4]` and `[4..6]` of `s` (once its leading
/// `#`s are dropped) exist: six bytes at least, cut at char boundaries.
pub open spec fn hex_sliceable(s: Seq<char>) -> bool {
    let t = strip_hash_bytes(encode_utf8(s));
    &&& t.len() >= 6
    &&& is_char_boundary(t, 2)
    &&& is_char_boundary(t, 4)
    &&& is_char_boundary(t, 6)
}

/// The color that `parse_hex` reads from `s`.
pub open spec fn parsed_hex(s: Seq<char>) -> (u8, u8, u8) {
    let t = strip_hash_bytes(encode_utf8(s));
    (radix16_pair(t[0], t[1]), radix16_pair(t[2], t[3]), radix16_pair(t[4], t[5]))
}

proof fn lemma_strip_hash_bytes(b: Seq<u8>, k: int)
    requires
        0 <= k <= b.len(),
        forall|i: int| 0 <= i < k ==> b[i] == 0x23,
        k == b.len() || b[k] != 0x23,
    ensures
        strip_hash_bytes(b) == b.subrange(k, b.len() as int),
    decreases k,
{
    if k == 0 {
        assert(b.subrange(0, b.len() as int) == b);
    } else {
        let d = b.drop_first();
        assert forall|i: int| 0 <= i < k - 1 implies d[i] == 0x23 by {
            assert(d[i] == b[i + 1]);
        }
        lemma_strip_hash_bytes(d, k - 1);
        assert(d.subrange(k - 1, d.len() as int) == b.subrange(k, b.len() as int));
    }
}

fn radix16_value(x: u8) -> (r: Option<u8>)
    ensures
        r matches Some(v) ==> hex_value(x) == Some(v as nat),
        r is None ==> hex_value(x) is None,
{
    if 0x30 <= x && x <= 0x39 {
        Some(x - 0x30)
    } else if 0x61 <= x && x <= 0x66 {
        Some(x - 0x57)
    } else if 0x41 <= x && x <= 0x46 {
        Some(x - 0x37)
    } else {
        None
    }
}

fn radix16(x: u8, y: u8) -> (r: u8)
    ensures
        r == radix16_pair(x, y),
{
    match (radix16_value(x), radix16_value(y)) {
        (Some(a), Some(b)) => 16 * a + b,
        (None, Some(b)) => if x == 0x2b {
            b
        } else {
            0
        },
        _ => 0,
    }
}

/// Reads `#rrggbb` into its three channels; a pair that is not hex reads
/// as 0.
pub fn parse_hex(s: &str) -> (c: (u8, u8, u8))
    requires
        hex_sliceable(s@),
    ensures
        c == parsed_hex(s@),
{
    let b = s.as_bytes();
    let mut k: usize = 0;
    while k < b.len() && b[k] == 0x23
        invariant
            k <= b.len(),
            b@ == encode_utf8(s@),
            forall|i: int| 0 <= i < k ==> b@[i] == 0x23,
        decreases b.len() - k,
    {
        k = k + 1;
    }
    proof {
        lemma_strip_hash_bytes(b@, k as int);
    }
    let ghost t = strip_hash_bytes(b@);
    assert(t[0] == b@[k as int] && t[1] == b@[k + 1] && t[2] == b@[k + 2]);
    assert(t[3] == b@[k + 3] && t[4] == b@[k + 4] && t[5] == b@[k + 5]);
    let r = radix16(b[k], b[k + 1]);
    let g = radix16(b[k + 2], b[k + 3]);
    let bl = radix16(b[k + 4], b[k + 5]);
    (r, g, bl)
}

/// `#rrggbb` of a channel triple.
pub fn hex(c: (u8, u8, u8)) -> (s: String)
    ensures
        s@ == hex_color(c.0, c.1, c.2),
{
    fmt_hex(c.0, c.1, c.2)
}

proof fn lemma_hex_digit_value(d: nat)
    requires
        d < 16,
    ensures
        (hex_digit(d) as u32) < 0x80,
        hex_digit(d) != '#',
        hex_value(hex_digit(d) as u8) == Some(d),
{
}

/// Reading back what `hex` wrote gives the same channels: `#rrggbb` can be
/// sliced and parses to the triple it was made from.
pub proof fn law_hex_roundtrip(c: (u8, u8, u8))
    ensures
        hex_sliceable(hex_color(c.0, c.1, c.2)),
        parsed_hex(hex_color(c.0, c.1, c.2)) == c,
{
    let s = hex_color(c.0, c.1, c.2);
    let ds = seq![
        c.0 as nat / 16,
        c.0 as nat % 16,
        c.1 as nat / 16,
        c.1 as nat % 16,
        c.2 as nat / 16,
        c.2 as nat % 16,
    ];
    assert forall|i: int| 0 <= i < 6 implies #[trigger] s[i + 1] == hex_digit(ds[i]) by {}
    assert forall|i: int| 0 <= i < 6 implies {
        &&& (hex_digit(ds[i]) as u32) < 0x80
        &&& hex_digit(ds[i]) != '#'
        &&& hex_value(hex_digit(ds[i]) as u8) == Some(ds[i])
    } by {
        lemma_hex_digit_value(ds[i]);
    }
    assert(s.len() == 7);
    assert(vstd::utf8::is_ascii_chars(s));
    let b = encode_utf8(s);
    assert(b.len() == 7);
    assert(b[0] == 0x23);
    assert(b[1] != 0x23);
    lemma_strip_hash_bytes(b, 1);
    let t = strip_hash_bytes(b);
    let rest = s.drop_first();
    assert(vstd::utf8::is_ascii_chars(rest));
    assert(t =~= encode_utf8(rest));
    assert(valid_utf8(t));
    assert(!is_continuation_byte(t[2]));
    assert(!is_continuation_byte(t[4]));
    assert(is_char_boundary(t, 2));
    assert(is_char_boundary(t, 4));
    assert(is_char_boundary(t, 6));
    assert(t[0] == hex_digit(ds[0]) as u8 && t[1] == hex_digit(ds[1]) as u8);
    assert(t[2] == hex_digit(ds[2]) as u8 && t[3] == hex_digit(ds[3]) as u8);
    assert(t[4] == hex_digit(ds[4]) as u8 && t[5] == hex_digit(ds[5]) as u8);
}

/// The views of the ansi colors.
pub open spec fn ansi(c: &Colors) -> Seq<Seq<char>> {
    c.ansi_colors@.map_values(|s: String| s@)
}

/// `ansi_colors.get(i)`, or `default` when there is no such color.
pub open spec fn ansi_or(c: &Colors, i: int, default: Seq<char>) -> Seq<char> {
    if 0 <= i < c.ansi_colors@.len() {
        c.ansi_colors@[i]@
    } else {
        default
    }
}

/// `ansi_colors.get(i).cloned().unwrap_or_else(|| default.to_string())`.
pub fn ansi_color_or(colors: &Colors, i: usize, default: &str) -> (s: String)
    ensures
        s@ == ansi_or(colors, i as int, default@),
{
    if i < colors.ansi_colors.len() {
        colors.ansi_colors[i].clone()
    } else {
        String::from_str(default)
    }
}

/// The `color{i}` lines of the first `n` ansi colors, in kitty's syntax.
pub open spec fn kitty_color_lines(a: Seq<Seq<char>>, n: int) -> Seq<char>
    decreases n,
{
    if n <= 0 {
        seq![]
    } else {
        kitty_color_lines(a, n - 1) + "color"@ + decimal((n - 1) as nat) + " "@ + a[n - 1] + "\n"@
    }
}

/// The kitty color file.
pub open spec fn kitty_text(c: &Colors) -> Seq<char> {
    "background "@ + c.background@ + "\n"@ + "foreground "@ + c.foreground@ + "\n"@
        + kitty_color_lines(ansi(c), c.ansi_colors@.len() as int)
}

/// `pat` occurs somewhere in `s`.
pub open spec fn contains_seq(s: Seq<char>, pat: Seq<char>) -> bool {
    exists|k: int| #[trigger] occurs_at(s, pat, k)
}

/// The kitty line of ansi color `i`.
pub open spec fn kitty_line(i: nat, color: Seq<char>) -> Seq<char> {
    "color"@ + decimal(i) + " "@ + color + "\n"@
}

/// How many `'\n'` chars `s` holds: its number of lines when it ends with one.
pub open spec fn newline_count(s: Seq<char>) -> nat
    decreases s.len(),
{
    if s.len() == 0 {
        0
    } else {
        (if s[0] == '\n' { 1nat } else { 0nat }) + newline_count(s.drop_first())
    }
}

/// `s` holds no `'\n'`.
pub open spec fn one_line(s: Seq<char>) -> bool {
    forall|i: int| 0 <= i < s.len() ==> #[trigger] s[i] != '\n'
}

proof fn lemma_newline_count_concat(a: Seq<char>, b: Seq<char>)
    ensures
        newline_count(a + b) == newline_count(a) + newline_count(b),
    decreases a.len(),
{
    if a.len() > 0 {
        lemma_newline_count_concat(a.drop_first(), b);
        assert((a + b).drop_first() =~= a.drop_first() + b);
        assert((a + b)[0] == a[0]);
    } else {
        assert(a + b =~= b);
    }
}

proof fn lemma_newline_count_nl()
    ensures
        newline_count("\n"@) == 1,
{
    reveal_strlit("\n");
    let s = "\n"@;
    assert(s.len() == 1 && s[0] == '\n');
    assert(s.drop_first() =~= Seq::<char>::empty());
    assert(newline_count(Seq::<char>::empty()) == 0);
}

proof fn lemma_one_line_count(s: Seq<char>)
    requires
        one_line(s),
    ensures
        newline_count(s) == 0,
    decreases s.len(),
{
    if s.len() > 0 {
        assert(one_line(s.drop_first())) by {
            assert forall|i: int| 0 <= i < s.drop_first().len() implies #[trigger] s.drop_first()[i] != '\n' by {
                assert(s.drop_first()[i] == s[i + 1]);
            }
        }
        lemma_one_line_count(s.drop_first());
    }
}

proof fn lemma_decimal_one_line(n: nat)
    ensures
        one_line(decimal(n)),
    decreases n,
{
    if n >= 10 {
        lemma_decimal_one_line(n / 10);
        let d = decimal(n / 10);
        assert forall|i: int| 0 <= i < decimal(n).len() implies #[trigger] decimal(n)[i] != '\n' by {
            if i < d.len() {
                assert(decimal(n)[i] == d[i]);
            }
        }
    }
}

proof fn lemma_kitty_line_count(i: nat, color: Seq<char>)
    requires
        one_line(color),
    ensures
        newline_count(kitty_line(i, color)) == 1,
{
    reveal_strlit("color");
    reveal_strlit(" ");
    reveal_strlit("\n");
    lemma_decimal_one_line(i);
    lemma_one_line_count(decimal(i));
    lemma_one_line_count(color);
    assert(newline_count("color"@) == 0) by {
        lemma_one_line_count("color"@);
    }
    assert(newline_count(" "@) == 0) by {
        lemma_one_line_count(" "@);
    }
    lemma_newline_count_nl();
    lemma_newline_count_concat("color"@, decimal(i));
    lemma_newline_count_concat("color"@ + decimal(i), " "@);
    lemma_newline_count_concat("color"@ + decimal(i) + " "@, color);
    lemma_newline_count_concat("color"@ + decimal(i) + " "@ + color, "\n"@);
}

proof fn lemma_kitty_lines_shape(a: Seq<Seq<char>>, n: int)
    requires
        0 <= n <= a.len(),
    ensures
        forall|i: int|
            0 <= i < n ==> #[trigger] occurs_at(
                kitty_color_lines(a, n),
                kitty_line(i as nat, a[i]),
                kitty_color_lines(a, i).len() as int,
            ),
        (forall|i: int| 0 <= i < a.len() ==> one_line(#[trigger] a[i])) ==> newline_count(
            kitty_color_lines(a, n),
        ) == n,
    decreases n,
{
    if n > 0 {
        lemma_kitty_lines_shape(a, n - 1);
        let p = kitty_color_lines(a, n - 1);
        let l = kitty_line((n - 1) as nat, a[n - 1]);
        assert(kitty_color_lines(a, n) =~= p + l);
        assert forall|i: int| 0 <= i < n implies #[trigger] occurs_at(
            kitty_color_lines(a, n),
            kitty_line(i as nat, a[i]),
            kitty_color_lines(a, i).len() as int,
        ) by {
            let q = kitty_color_lines(a, i).len() as int;
            let li = kitty_line(i as nat, a[i]);
            if i < n - 1 {
                assert(occurs_at(p, li, q));
                assert((p + l).subrange(q, q + li.len()) =~= p.subrange(q, q + li.len()));
            } else {
                assert((p + l).subrange(q, q + li.len()) =~= l);
            }
        }
        if forall|i: int| 0 <= i < a.len() ==> one_line(#[trigger] a[i]) {
            assert(one_line(a[n - 1]));
            lemma_kitty_line_count((n - 1) as nat, a[n - 1]);
            lemma_newline_count_concat(p, l);
        }
    }
}

/// The kitty file lists every ansi color: for each index `i` below the
/// palette's length it holds the line `color{i} <ansi_colors[i]>`, and, when
/// no color spans lines, it has exactly two lines more than the palette has
/// ansi colors (background and foreground first).
pub proof fn law_kitty_lists_every_color(c: &Colors)
    ensures
        forall|i: int|
            0 <= i < c.ansi_colors@.len() ==> contains_seq(
                kitty_text(c),
                #[trigger] kitty_line(i as nat, c.ansi_colors@[i]@),
            ),
        one_line(c.background@) && one_line(c.foreground@) && (forall|i: int|
            0 <= i < c.ansi_colors@.len() ==> one_line(#[trigger] c.ansi_colors@[i]@))
            ==> newline_count(kitty_text(c)) == c.ansi_colors@.len() + 2,
{
    reveal_strlit("background ");
    reveal_strlit("foreground ");
    reveal_strlit("\n");
    let a = ansi(c);
    let n = c.ansi_colors@.len() as int;
    lemma_kitty_lines_shape(a, n);
    let head = "background "@ + c.background@ + "\n"@ + "foreground "@ + c.foreground@ + "\n"@;
    let body = kitty_color_lines(a, n);
    assert(kitty_text(c) == head + body);
    assert forall|i: int| 0 <= i < n implies contains_seq(
        kitty_text(c),
        #[trigger] kitty_line(i as nat, c.ansi_colors@[i]@),
    ) by {
        let li = kitty_line(i as nat, c.ansi_colors@[i]@);
        assert(a[i] == c.ansi_colors@[i]@);
        let q = kitty_color_lines(a, i).len() as int;
        assert(occurs_at(body, li, q));
        let k = head.len() + q;
        assert((head + body).subrange(k, k + li.len()) =~= body.subrange(q, q + li.len()));
        assert(occurs_at(kitty_text(c), li, k));
    }
    if one_line(c.background@) && one_line(c.foreground@) && (forall|i: int|
        0 <= i < c.ansi_colors@.len() ==> one_line(#[trigger] c.ansi_colors@[i]@)) {
        assert forall|i: int| 0 <= i < a.len() implies one_line(#[trigger] a[i]) by {
            assert(a[i] == c.ansi_colors@[i]@);
        }
        lemma_one_line_count("background "@);
        lemma_one_line_count("foreground "@);
        lemma_one_line_count(c.background@);
        lemma_one_line_count(c.foreground@);
        lemma_newline_count_nl();
        lemma_newline_count_concat("background "@, c.background@);
        lemma_newline_count_concat("background "@ + c.background@, "\n"@);
        lemma_newline_count_concat("background "@ + c.background@ + "\n"@, "foreground "@);
        lemma_newline_count_concat(
            "background "@ + c.background@ + "\n"@ + "foreground "@,
            c.foreground@,
        );
        lemma_newline_count_concat(
            "background "@ + c.background@ + "\n"@ + "foreground "@ + c.foreground@,
            "\n"@,
        );
        lemma_newline_count_concat(head, body);
    }
}

/// The kitty color file: background, foreground, then `color{i}` lines.
pub fn kitty_conf(colors: &Colors) -> (s: String)
    ensures
        s@ == kitty_text(colors),
{
    let mut s = String::new();
    s.append("background ");
    s.append(colors.background.as_str());
    s.append("\n");
    s.append("foreground ");
    s.append(colors.foreground.as_str());
    s.append("\n");
    let n = colors.ansi_colors.len();
    for i in 0..n
        invariant
            n == colors.ansi_colors.len(),
            s@ == "background "@ + colors.background@ + "\n"@ + "foreground "@
                + colors.foreground@ + "\n"@ + kitty_color_lines(ansi(colors), i as int),
    {
        s.append("color");
        push_decimal(&mut s, i);
        s.append(" ");
        s.append(colors.ansi_colors[i].as_str());
        s.append("\n");
    }
    s
}

/// `(color{i}, value)` for every ansi color.
pub open spec fn color_entries_spec(c: &Colors) -> Seq<(Seq<char>, Seq<char>)> {
    Seq::new(
        c.ansi_colors@.len(),
        |i: int| ("color"@ + decimal(i as nat), c.ansi_colors@[i]@),
    )
}

/// The `colors` table of `colors.json`: `color{i}` for every ansi color.
pub fn color_entries(colors: &Colors) -> (e: Vec<(String, String)>)
    ensures
        e@.map_values(|p: (String, String)| (p.0@, p.1@)) == color_entries_spec(colors),
{
    let mut e: Vec<(String, String)> = Vec::new();
    let n = colors.ansi_colors.len();
    for i in 0..n
        invariant
            n == colors.ansi_colors.len(),
            e@.len() == i,
            forall|j: int|
                0 <= j < i ==> (#[trigger] e@[j]).0@ == "color"@ + decimal(j as nat) && e@[j].1@
                    == colors.ansi_colors@[j]@,
    {
        let mut name = String::from_str("color");
        push_decimal(&mut name, i);
        e.push((name, colors.ansi_colors[i].clone()));
    }
    assert(e@.map_values(|p: (String, String)| (p.0@, p.1@)) =~= color_entries_spec(colors));
    e
}

/// The `special` table of `colors.json`.
pub fn special_entries(colors: &Colors) -> (e: Vec<(String, String)>)
    ensures
        e@.len() == 2,
        e@[0].0@ == "background"@,
        e@[0].1@ == colors.background@,
        e@[1].0@ == "foreground"@,
        e@[1].1@ == colors.foreground@,
{
    let mut e: Vec<(String, String)> = Vec::new();
    e.push((String::from_str("background"), colors.background.clone()));
    e.push((String::from_str("foreground"), colors.foreground.clone()));
    e
}

/// The active and inactive border colors and the shadow color, hex digits
/// only: ansi 4 (or `#89b4fa`), ansi 8 (or `#595959`) and the background.
pub open spec fn hypr_active(c: &Colors) -> Seq<char> {
    trim_start_char(ansi_or(c, 4, "#89b4fa"@), '#')
}

pub open spec fn hypr_inactive(c: &Colors) -> Seq<char> {
    trim_start_char(ansi_or(c, 8, "#595959"@), '#')
}

pub open spec fn hypr_shadow(c: &Colors) -> Seq<char> {
    trim_start_char(c.background@, '#')
}

/// The Hyprland color file.
pub open spec fn hyprland_text(c: &Colors) -> Seq<char> {
    "general {\n    col.active_border = rgba("@ + hypr_active(c) + "ee)\n    col.inactive_border = rgba("@
        + hypr_inactive(c) + "aa)\n}\ndecoration {\n    shadow {\n        color = rgba("@
        + hypr_shadow(c) + "ee)\n    }\n}\n"@
}

/// The Hyprland color file: border colors and the shadow color.
pub fn hyprland_conf(colors: &Colors) -> (s: String)
    ensures
        s@ == hyprland_text(colors),
{
    let active = ansi_color_or(colors, 4, "#89b4fa");
    let inactive = ansi_color_or(colors, 8, "#595959");
    let active_hex = trim_start_char_string(active.as_str(), '#');
    let inactive_hex = trim_start_char_string(inactive.as_str(), '#');
    let bg_hex = trim_start_char_string(colors.background.as_str(), '#');
    let mut s = String::new();
    s.append("general {\n    col.active_border = rgba(");
    s.append(active_hex.as_str());
    s.append("ee)\n    col.inactive_border = rgba(");
    s.append(inactive_hex.as_str());
    s.append("aa)\n}\ndecoration {\n    shadow {\n        color = rgba(");
    s.append(bg_hex.as_str());
    s.append("ee)\n    }\n}\n");
    s
}

/// The live border updates, as `(keyword, value)` pairs for `hyprctl keyword`.
pub fn hyprland_keywords(colors: &Colors) -> (k: Vec<(String, String)>)
    ensures
        k@.len() == 2,
        k@[0].0@ == "general:col.active_border"@,
        k@[0].1@ == "rgba("@ + hypr_active(colors) + "ee)"@,
        k@[1].0@ == "general:col.inactive_border"@,
        k@[1].1@ == "rgba("@ + hypr_inactive(colors) + "aa)"@,
{
    let active = ansi_color_or(colors, 4, "#89b4fa");
    let inactive = ansi_color_or(colors, 8, "#595959");
    let mut a = String::from_str("rgba(");
    a.append(trim_start_char_string(active.as_str(), '#').as_str());
    a.append("ee)");
    let mut b = String::from_str("rgba(");
    b.append(trim_start_char_string(inactive.as_str(), '#').as_str());
    b.append("aa)");
    let mut k: Vec<(String, String)> = Vec::new();
    k.push((String::from_str("general:col.active_border"), a));
    k.push((String::from_str("general:col.inactive_border"), b));
    k
}

/// The Neovim theme module: highlight groups drawn from the palette, with
/// a fixed fallback for each ansi color the palette lacks.
pub open spec fn nvim_theme_text(c: &Colors) -> Seq<char> {
    "-- Auto-generated by astrium, do not edit by hand\n"@
        + "local M = {}\n"@
        + "\n"@
        + "function M.apply()\n"@
        + "  vim.cmd('highlight clear')\n"@
        + "  vim.o.background = 'dark'\n"@
        + "\n"@
        + "  local hl = vim.api.nvim_set_hl\n"@
        + "  hl(0, 'Normal', { fg = '"@
        + c.foreground@
        + "', bg = '"@
        + c.background@
        + "' })\n"@
        + "  hl(0, 'NormalFloat', { fg = '"@
        + c.foreground@
        + "', bg = '"@
        + c.background@
        + "' })\n"@
        + "  hl(0, 'CursorLine', { bg = '"@
        + ansi_or(c, 8, "#444444"@)
        + "' })\n"@
        + "  hl(0, 'LineNr', { fg = '"@
        + ansi_or(c, 8, "#666666"@)
        + "' })\n"@
        + "  hl(0, 'Comment', { fg = '"@
        + ansi_or(c, 8, "#888888"@)
        + "', italic = true })\n"@
        + "  hl(0, 'String', { fg = '"@
        + ansi_or(c, 2, "#a6e3a1"@)
        + "' })\n"@
        + "  hl(0, 'Function', { fg = '"@
        + ansi_or(c, 4, "#89b4fa"@)
        + "' })\n"@
        + "  hl(0, 'Keyword', { fg = '"@
        + ansi_or(c, 5, "#cba6f7"@)
        + "' })\n"@
        + "  hl(0, 'Type', { fg = '"@
        + ansi_or(c, 3, "#f9e2af"@)
        + "' })\n"@
        + "  hl(0, 'Identifier', { fg = '"@
        + ansi_or(c, 6, "#94e2d5"@)
        + "' })\n"@
        + "  hl(0, 'Constant', { fg = '"@
        + ansi_or(c, 1, "#f38ba8"@)
        + "' })\n"@
        + "  hl(0, 'Statement', { fg = '"@
        + ansi_or(c, 5, "#cba6f7"@)
        + "' })\n"@
        + "  hl(0, 'Visual', { bg = '"@
        + ansi_or(c, 8, "#45475a"@)
        + "' })\n"@
        + "  hl(0, 'Search', { bg = '"@
        + ansi_or(c, 3, "#f9e2af"@)
        + "', fg = '"@
        + c.background@
        + "' })\n"@
        + "  hl(0, 'Pmenu', { fg = '"@
        + c.foreground@
        + "', bg = '"@
        + ansi_or(c, 8, "#313244"@)
        + "' })\n"@
        + "  hl(0, 'PmenuSel', { fg = '"@
        + c.background@
        + "', bg = '"@
        + ansi_or(c, 4, "#89b4fa"@)
        + "' })\n"@
        + "  hl(0, 'NeoTreeDirectoryIcon', { fg = '"@
        + ansi_or(c, 4, "#89b4fa"@)
        + "' })\n"@
        + "  hl(0, 'NeoTreeDirectoryName', { fg = '"@
        + ansi_or(c, 4, "#89b4fa"@)
        + "' })\n"@
        + "  hl(0, 'NeoTreeFileName', { fg = '"@
        + c.foreground@
        + "' })\n"@
        + "  hl(0, 'NeoTreeRootName', { fg = '"@
        + ansi_or(c, 5, "#cba6f7"@)
        + "', bold = true })\n"@
        + "  hl(0, 'NeoTreeNormal', { fg = '"@
        + c.foreground@
        + "', bg = 'none' })\n"@
        + "  hl(0, 'NeoTreeNormalNC', { fg = '"@
        + c.foreground@
        + "', bg = 'none' })\n"@
        + "  hl(0, 'NeoTreeIndentMarker', { fg = '"@
        + ansi_or(c, 8, "#444444"@)
        + "' })\n"@
        + "  hl(0, 'NeoTreeGitModified', { fg = '"@
        + ansi_or(c, 3, "#f9e2af"@)
        + "' })\n"@
        + "  hl(0, 'NeoTreeGitAdded', { fg = '"@
        + ansi_or(c, 2, "#a6e3a1"@)
        + "' })\n"@
        + "end\n"@
        + "\n"@
        + "return M\n"@
}

/// The Neovim theme module (`nvim-theme.lua`).
pub fn nvim_theme(colors: &Colors) -> (s: String)
    ensures
        s@ == nvim_theme_text(colors),
{
    let mut s = String::new();
    s.append("-- Auto-generated by astrium, do not edit by hand\n");
    s.append("local M = {}\n");
    s.append("\n");
    s.append("function M.apply()\n");
    s.append("  vim.cmd('highlight clear')\n");
    s.append("  vim.o.background = 'dark'\n");
    s.append("\n");
    s.append("  local hl = vim.api.nvim_set_hl\n");
    s.append("  hl(0, 'Normal', { fg = '");
    s.append(colors.foreground.as_str());
    s.append("', bg = '");
    s.append(colors.background.as_str());
    s.append("' })\n");
    s.append("  hl(0, 'NormalFloat', { fg = '");
    s.append(colors.foreground.as_str());
    s.append("', bg = '");
    s.append(colors.background.as_str());
    s.append("' })\n");
    s.append("  hl(0, 'CursorLine', { bg = '");
    s.append(ansi_color_or(colors, 8, "#444444").as_str());
    s.append("' })\n");
    s.append("  hl(0, 'LineNr', { fg = '");
    s.append(ansi_color_or(colors, 8, "#666666").as_str());
    s.append("' })\n");
    s.append("  hl(0, 'Comment', { fg = '");
    s.append(ansi_color_or(colors, 8, "#888888").as_str());
    s.append("', italic = true })\n");
    s.append("  hl(0, 'String', { fg = '");
    s.append(ansi_color_or(colors, 2, "#a6e3a1").as_str());
    s.append("' })\n");
    s.append("  hl(0, 'Function', { fg = '");
    s.append(ansi_color_or(colors, 4, "#89b4fa").as_str());
    s.append("' })\n");
    s.append("  hl(0, 'Keyword', { fg = '");
    s.append(ansi_color_or(colors, 5, "#cba6f7").as_str());
    s.append("' })\n");
    s.append("  hl(0, 'Type', { fg = '");
    s.append(ansi_color_or(colors, 3, "#f9e2af").as_str());
    s.append("' })\n");
    s.append("  hl(0, 'Identifier', { fg = '");
    s.append(ansi_color_or(colors, 6, "#94e2d5").as_str());
    s.append("' })\n");
    s.append("  hl(0, 'Constant', { fg = '");
    s.append(ansi_color_or(colors, 1, "#f38ba8").as_str());
    s.append("' })\n");
    s.append("  hl(0, 'Statement', { fg = '");
    s.append(ansi_color_or(colors, 5, "#cba6f7").as_str());
    s.append("' })\n");
    s.append("  hl(0, 'Visual', { bg = '");
    s.append(ansi_color_or(colors, 8, "#45475a").as_str());
    s.append("' })\n");
    s.append("  hl(0, 'Search', { bg = '");
    s.append(ansi_color_or(colors, 3, "#f9e2af").as_str());
    s.append("', fg = '");
    s.append(colors.background.as_str());
    s.append("' })\n");
    s.append("  hl(0, 'Pmenu', { fg = '");
    s.append(colors.foreground.as_str());
    s.append("', bg = '");
    s.append(ansi_color_or(colors, 8, "#313244").as_str());
    s.append("' })\n");
    s.append("  hl(0, 'PmenuSel', { fg = '");
    s.append(colors.background.as_str());
    s.append("', bg = '");
    s.append(ansi_color_or(colors, 4, "#89b4fa").as_str());
    s.append("' })\n");
    s.append("  hl(0, 'NeoTreeDirectoryIcon', { fg = '");
    s.append(ansi_color_or(colors, 4, "#89b4fa").as_str());
    s.append("' })\n");
    s.append("  hl(0, 'NeoTreeDirectoryName', { fg = '");
    s.append(ansi_color_or(colors, 4, "#89b4fa").as_str());
    s.append("' })\n");
    s.append("  hl(0, 'NeoTreeFileName', { fg = '");
    s.append(colors.foreground.as_str());
    s.append("' })\n");
    s.append("  hl(0, 'NeoTreeRootName', { fg = '");
    s.append(ansi_color_or(colors, 5, "#cba6f7").as_str());
    s.append("', bold = true })\n");
    s.append("  hl(0, 'NeoTreeNormal', { fg = '");
    s.append(colors.foreground.as_str());
    s.append("', bg = 'none' })\n");
    s.append("  hl(0, 'NeoTreeNormalNC', { fg = '");
    s.append(colors.foreground.as_str());
    s.append("', bg = 'none' })\n");
    s.append("  hl(0, 'NeoTreeIndentMarker', { fg = '");
    s.append(ansi_color_or(colors, 8, "#444444").as_str());
    s.append("' })\n");
    s.append("  hl(0, 'NeoTreeGitModified', { fg = '");
    s.append(ansi_color_or(colors, 3, "#f9e2af").as_str());
    s.append("' })\n");
    s.append("  hl(0, 'NeoTreeGitAdded', { fg = '");
    s.append(ansi_color_or(colors, 2, "#a6e3a1").as_str());
    s.append("' })\n");
    s.append("end\n");
    s.append("\n");
    s.append("return M\n");
    s
}

/// The ansi slots the cava gradient draws from: every slot but 0 and 8.
pub open spec fn cava_slots() -> Seq<int> {
    seq![1, 2, 3, 4, 5, 6, 7, 9, 10, 11, 12, 13, 14, 15]
}

/// The gradient stops taken from the first `m` slots (those the palette has).
pub open spec fn cava_stops_upto(c: &Colors, m: int) -> Seq<Seq<char>>
    decreases m,
{
    if m <= 0 {
        seq![]
    } else if cava_slots()[m - 1] < c.ansi_colors@.len() {
        cava_stops_upto(c, m - 1).push(c.ansi_colors@[cava_slots()[m - 1]]@)
    } else {
        cava_stops_upto(c, m - 1)
    }
}

/// The gradient stops, in slot order.
pub open spec fn cava_stops(c: &Colors) -> Seq<Seq<char>> {
    cava_stops_upto(c, 14)
}

/// The `gradient_color_{k}` lines of the first `n` stops.
pub open spec fn gradient_lines(stops: Seq<Seq<char>>, n: int) -> Seq<char>
    decreases n,
{
    if n <= 0 {
        seq![]
    } else {
        gradient_lines(stops, n - 1) + "gradient_color_"@ + decimal(n as nat) + " = '"@ + stops[n
            - 1] + "'\n"@
    }
}

/// The marker-delimited cava config block.
pub open spec fn cava_block_text(c: &Colors) -> Seq<char> {
    let stops = cava_stops(c);
    "# >>> astrium\n[color]\ngradient = 1\ngradient_count = "@ + decimal(stops.len()) + "\n"@
        + gradient_lines(stops, stops.len() as int) + "# <<< astrium\n"@
}

/// The cava config block: a gradient through the palette's ansi colors
/// (slots 1 to 7 and 9 to 15), between the `# >>> astrium` and
/// `# <<< astrium` markers.
pub fn cava_block(colors: &Colors) -> (s: String)
    ensures
        s@ == cava_block_text(colors),
{
    let slots: [usize; 14] = [1, 2, 3, 4, 5, 6, 7, 9, 10, 11, 12, 13, 14, 15];
    assert(slots@ == cava_slots().map_values(|i: int| i as usize));
    let mut stops: Vec<usize> = Vec::new();
    for m in 0..14
        invariant
            slots@ == cava_slots().map_values(|i: int| i as usize),
            stops@.len() == cava_stops_upto(colors, m as int).len(),
            forall|j: int|
                0 <= j < stops@.len() ==> (#[trigger] stops@[j]) < colors.ansi_colors@.len()
                    && colors.ansi_colors@[stops@[j] as int]@ == cava_stops_upto(colors, m as int)[j],
    {
        let slot = slots[m];
        if slot < colors.ansi_colors.len() {
            stops.push(slot);
        }
    }
    let n = stops.len();
    let ghost st = cava_stops(colors);
    let mut s = String::from_str("# >>> astrium\n[color]\ngradient = 1\ngradient_count = ");
    push_decimal(&mut s, n);
    s.append("\n");
    for k in 0..n
        invariant
            n == stops@.len() == st.len(),
            st == cava_stops(colors),
            forall|j: int|
                0 <= j < n ==> (#[trigger] stops@[j]) < colors.ansi_colors@.len()
                    && colors.ansi_colors@[stops@[j] as int]@ == st[j],
            s@ == "# >>> astrium\n[color]\ngradient = 1\ngradient_count = "@ + decimal(n as nat)
                + "\n"@ + gradient_lines(st, k as int),
    {
        s.append("gradient_color_");
        push_decimal(&mut s, k + 1);
        s.append(" = '");
        s.append(colors.ansi_colors[stops[k]].as_str());
        s.append("'\n");
    }
    s.append("# <<< astrium\n");
    s
}

/// `pat` occurs in `s` at `i`.
pub open spec fn occurs_at(s: Seq<char>, pat: Seq<char>, i: int) -> bool {
    0 <= i && i + pat.len() <= s.len() && s.subrange(i, i + pat.len()) == pat
}

/// The first occurrence of `pat` in `s` at or after `i`.
pub open spec fn find_from(s: Seq<char>, pat: Seq<char>, i: int) -> Option<int>
    decreases s.len() + 1 - i,
{
    if i < 0 || i + pat.len() > s.len() {
        None
    } else if occurs_at(s, pat, i) {
        Some(i)
    } else {
        find_from(s, pat, i + 1)
    }
}

/// `str::find`: the first occurrence of `pat` in `s`.
pub open spec fn find_first(s: Seq<char>, pat: Seq<char>) -> Option<int> {
    find_from(s, pat, 0)
}

pub proof fn lemma_find_from(s: Seq<char>, pat: Seq<char>, i: int)
    requires
        0 <= i,
    ensures
        find_from(s, pat, i) matches Some(k) ==> i <= k && occurs_at(s, pat, k) && forall|j: int|
            i <= j < k ==> !#[trigger] occurs_at(s, pat, j),
        find_from(s, pat, i) is None ==> forall|j: int| i <= j ==> !#[trigger] occurs_at(s, pat, j),
    decreases s.len() + 1 - i,
{
    if i + pat.len() <= s.len() && !occurs_at(s, pat, i) {
        lemma_find_from(s, pat, i + 1);
    }
}

/// The first occurrence of `pat` in `cs`.
pub fn find_chars(cs: &Vec<char>, pat: &Vec<char>) -> (r: Option<usize>)
    ensures
        r matches Some(k) ==> find_first(cs@, pat@) == Some(k as int),
        r is None ==> find_first(cs@, pat@) is None,
{
    proof {
        lemma_find_from(cs@, pat@, 0);
    }
    if pat.len() > cs.len() {
        return None;
    }
    let last = cs.len() - pat.len();
    let mut i: usize = 0;
    while i <= last
        invariant
            last == cs.len() - pat.len(),
            pat.len() <= cs.len(),
            forall|j: int| 0 <= j < i ==> !#[trigger] occurs_at(cs@, pat@, j),
            find_first(cs@, pat@) matches Some(k) ==> occurs_at(cs@, pat@, k) && forall|j: int|
                0 <= j < k ==> !#[trigger] occurs_at(cs@, pat@, j),
            find_first(cs@, pat@) is None ==> forall|j: int| 0 <= j ==> !#[trigger] occurs_at(cs@, pat@, j),
        decreases last + 1 - i,
    {
        let mut m: usize = 0;
        while m < pat.len() && cs[i + m] == pat[m]
            invariant
                i <= last,
                last == cs.len() - pat.len(),
                m <= pat.len(),
                forall|q: int| 0 <= q < m ==> cs@[i + q] == pat@[q],
            decreases pat.len() - m,
        {
            m = m + 1;
        }
        if m == pat.len() {
            assert(cs@.subrange(i as int, i + pat.len()) =~= pat@);
            assert(occurs_at(cs@, pat@, i as int));
            return Some(i);
        }
        assert(!occurs_at(cs@, pat@, i as int)) by {
            if occurs_at(cs@, pat@, i as int) {
                assert(cs@.subrange(i as int, i + pat.len())[m as int] == cs@[i + m]);
            }
        }
        i = i + 1;
    }
    assert forall|j: int| 0 <= j implies !#[trigger] occurs_at(cs@, pat@, j) by {
        if j >= i {
        }
    }
    None
}

/// The marker that opens the block.
pub open spec fn block_start() -> Seq<char> {
    "# >>> astrium"@
}

/// The marker that closes the block.
pub open spec fn block_end() -> Seq<char> {
    "# <<< astrium"@
}

/// `existing` with its marked block replaced by `block`, or with `block`
/// appended after a blank line when `existing` has no pair of markers.
pub open spec fn replace_block_text(existing: Seq<char>, block: Seq<char>) -> Seq<char> {
    match (find_first(existing, block_start()), find_first(existing, block_end())) {
        (Some(s), Some(e)) => existing.subrange(0, s) + trim_end(block) + existing.subrange(
            e + block_end().len(),
            existing.len() as int,
        ),
        _ => {
            let base = if existing.len() > 0 && existing.last() != '\n' {
                existing.push('\n')
            } else {
                existing
            };
            base.push('\n') + block
        },
    }
}

/// Replaces the text from the first `# >>> astrium` through the end of the
/// first `# <<< astrium` with `block` (trailing white space trimmed); when
/// either marker is missing, appends `block` after a blank line instead.
pub fn replace_block(existing: &str, block: &str) -> (out: String)
    ensures
        out@ == replace_block_text(existing@, block@),
{
    let cs = chars_of(existing);
    let start = chars_of("# >>> astrium");
    let end = chars_of("# <<< astrium");
    match (find_chars(&cs, &start), find_chars(&cs, &end)) {
        (Some(s), Some(e)) => {
            proof {
                lemma_find_from(cs@, start@, 0);
                lemma_find_from(cs@, end@, 0);
            }
            let bs = chars_of(block);
            let mut k = bs.len();
            while k > 0 && is_whitespace(bs[k - 1])
                invariant
                    k <= bs.len(),
                    forall|i: int| k <= i < bs.len() ==> is_white_space(#[trigger] bs@[i]),
                decreases k,
            {
                k = k - 1;
            }
            proof {
                lemma_trim_end_at(bs@, k as int);
            }
            let mut out = string_of_range(&cs, 0, s);
            out.append(string_of_range(&bs, 0, k).as_str());
            out.append(string_of_range(&cs, e + end.len(), cs.len()).as_str());
            out
        },
        _ => {
            let mut out = String::from_str(existing);
            let n = cs.len();
            if n > 0 && cs[n - 1] != '\n' {
                push_char(&mut out, '\n');
            }
            push_char(&mut out, '\n');
            out.append(block);
            out
        },
    }
}

/// A block fit for `replace_block`: once trailing white space is trimmed it
/// starts with the opening marker and holds the closing marker only at its
/// very end.
pub open spec fn block_well_formed(b: Seq<char>) -> bool {
    let tb = trim_end(b);
    &&& occurs_at(tb, block_start(), 0)
    &&& tb.len() >= block_end().len()
    &&& find_first(tb, block_end()) == Some(tb.len() - block_end().len())
}

/// Either both markers occur, the opening one first, or neither does.
pub open spec fn markers_in_order(e: Seq<char>) -> bool {
    match (find_first(e, block_start()), find_first(e, block_end())) {
        (Some(s), Some(x)) => s <= x,
        (None, None) => true,
        _ => false,
    }
}

pub(crate) proof fn lemma_find_first_is(s: Seq<char>, pat: Seq<char>, k: int)
    requires
        occurs_at(s, pat, k),
        forall|j: int| 0 <= j < k ==> !#[trigger] occurs_at(s, pat, j),
    ensures
        find_first(s, pat) == Some(k),
{
    lemma_find_from(s, pat, 0);
    if let Some(k2) = find_first(s, pat) {
        if k2 > k {
            assert(!occurs_at(s, pat, k));
        }
    }
}

proof fn lemma_trim_end_prefix(s: Seq<char>)
    ensures
        trim_end(s).len() <= s.len(),
        trim_end(s) == s.subrange(0, trim_end(s).len() as int),
    decreases s.len(),
{
    if s.len() > 0 && is_white_space(s.last()) {
        lemma_trim_end_prefix(s.drop_last());
        assert(s.drop_last().subrange(0, trim_end(s).len() as int) == s.subrange(
            0,
            trim_end(s).len() as int,
        ));
    } else {
        assert(s.subrange(0, s.len() as int) == s);
    }
}

/// A window of `s` that holds a char that `pat` lacks is no occurrence.
pub(crate) proof fn lemma_not_occurs_at(s: Seq<char>, pat: Seq<char>, j: int, m: int)
    requires
        j <= m < j + pat.len(),
        0 <= m < s.len(),
        s[m] != pat[m - j],
    ensures
        !occurs_at(s, pat, j),
{
    if occurs_at(s, pat, j) {
        assert(s.subrange(j, j + pat.len())[m - j] == s[m]);
    }
}

proof fn lemma_marker_chars()
    ensures
        block_start().len() == 13,
        block_end().len() == 13,
        block_start()[0] == '#',
        block_end()[0] == '#',
        forall|i: int| 1 <= i < 13 ==> #[trigger] block_start()[i] != '#',
        forall|i: int| 1 <= i < 13 ==> #[trigger] block_end()[i] != '#',
        forall|i: int| 0 <= i < 13 ==> #[trigger] block_start()[i] != '\n',
        forall|i: int| 0 <= i < 13 ==> #[trigger] block_end()[i] != '\n',
{
    reveal_strlit("# >>> astrium");
    reveal_strlit("# <<< astrium");
}

/// In `r = p + t`, where `t` starts with `#` and `p` holds no occurrence of
/// a marker that has `#` only first, the marker first occurs in `r` where it
/// first occurs in `t`.
proof fn lemma_find_after_prefix(p: Seq<char>, t: Seq<char>, pat: Seq<char>, k: int)
    requires
        pat.len() == 13,
        pat[0] == '#',
        forall|i: int| 1 <= i < 13 ==> #[trigger] pat[i] != '#',
        t.len() > 0,
        t[0] == '#',
        forall|j: int| 0 <= j && j + 13 <= p.len() ==> !#[trigger] occurs_at(p, pat, j),
        find_first(t, pat) == Some(k),
    ensures
        find_first(p + t, pat) == Some(p.len() + k),
{
    let r = p + t;
    lemma_find_from(t, pat, 0);
    assert(t.subrange(k, k + 13) == pat);
    assert(r.subrange(p.len() + k, p.len() + k + 13) == t.subrange(k, k + 13));
    assert forall|j: int| 0 <= j < p.len() + k implies !#[trigger] occurs_at(r, pat, j) by {
        if j + 13 <= p.len() {
            assert(!occurs_at(p, pat, j));
            if occurs_at(r, pat, j) {
                assert(r.subrange(j, j + 13) == p.subrange(j, j + 13));
            }
        } else if j < p.len() {
            assert(r[p.len() as int] == t[0]);
            lemma_not_occurs_at(r, pat, j, p.len() as int);
        } else {
            assert(!occurs_at(t, pat, j - p.len()));
            if occurs_at(r, pat, j) {
                assert(r.subrange(j, j + 13) == t.subrange(j - p.len(), j - p.len() + 13));
            }
        }
    }
    lemma_find_first_is(r, pat, p.len() + k);
}

/// Patching with the same block twice gives what patching once gives: a
/// second run replaces the block the first one wrote instead of adding
/// another.
pub proof fn law_replace_block_idempotent(e: Seq<char>, b: Seq<char>)
    requires
        block_well_formed(b),
        markers_in_order(e),
    ensures
        replace_block_text(replace_block_text(e, b), b) == replace_block_text(e, b),
{
    let tb = trim_end(b);
    let st = block_start();
    let en = block_end();
    lemma_marker_chars();
    lemma_trim_end_prefix(b);
    lemma_find_from(e, st, 0);
    lemma_find_from(e, en, 0);
    lemma_find_from(tb, st, 0);
    lemma_find_from(tb, en, 0);
    assert(tb.subrange(0, 13) == st);
    assert(tb[0] == st[0]);
    assert(find_first(tb, st) == Some(0int)) by {
        lemma_find_first_is(tb, st, 0);
    }
    let r = replace_block_text(e, b);
    match (find_first(e, st), find_first(e, en)) {
        (Some(s), Some(x)) => {
            let p = e.subrange(0, s);
            let q = e.subrange(x + 13, e.len() as int);
            assert(r == p + tb + q);
            assert forall|j: int| 0 <= j && j + 13 <= p.len() implies !#[trigger] occurs_at(p, st, j) by {
                assert(!occurs_at(e, st, j));
                if occurs_at(p, st, j) {
                    assert(p.subrange(j, j + 13) == e.subrange(j, j + 13));
                }
            }
            assert forall|j: int| 0 <= j && j + 13 <= p.len() implies !#[trigger] occurs_at(p, en, j) by {
                assert(!occurs_at(e, en, j));
                if occurs_at(p, en, j) {
                    assert(p.subrange(j, j + 13) == e.subrange(j, j + 13));
                }
            }
            let tq = tb + q;
            lemma_find_from(tq, st, 0);
            assert(tq.subrange(0, 13) == tb.subrange(0, 13));
            lemma_find_first_is(tq, st, 0);
            assert(find_first(tq, en) == Some(tb.len() - 13)) by {
                let k = tb.len() - 13;
                assert(tq.subrange(k, k + 13) == tb.subrange(k, k + 13));
                assert forall|j: int| 0 <= j < k implies !#[trigger] occurs_at(tq, en, j) by {
                    assert(!occurs_at(tb, en, j));
                    if occurs_at(tq, en, j) {
                        assert(tq.subrange(j, j + 13) == tb.subrange(j, j + 13));
                    }
                }
                lemma_find_first_is(tq, en, k);
            }
            assert(p + tb + q == p + tq);
            lemma_find_after_prefix(p, tq, st, 0);
            lemma_find_after_prefix(p, tq, en, tb.len() - 13);
            assert(r.subrange(0, s) == p);
            assert(r.subrange((p.len() + tb.len()) as int, r.len() as int) == q);
        },
        (None, None) => {
            let base = if e.len() > 0 && e.last() != '\n' {
                e.push('\n')
            } else {
                e
            };
            let p = base.push('\n');
            assert(r == p + b);
            assert forall|j: int| 0 <= j && j + 13 <= p.len() implies !#[trigger] occurs_at(p, st, j) by {
                if j + 13 <= e.len() {
                    assert(!occurs_at(e, st, j));
                    if occurs_at(p, st, j) {
                        assert(p.subrange(j, j + 13) == e.subrange(j, j + 13));
                    }
                } else {
                    let m = e.len() as int;
                    assert(p[m] == '\n');
                    lemma_not_occurs_at(p, st, j, m);
                }
            }
            assert forall|j: int| 0 <= j && j + 13 <= p.len() implies !#[trigger] occurs_at(p, en, j) by {
                if j + 13 <= e.len() {
                    assert(!occurs_at(e, en, j));
                    if occurs_at(p, en, j) {
                        assert(p.subrange(j, j + 13) == e.subrange(j, j + 13));
                    }
                } else {
                    let m = e.len() as int;
                    assert(p[m] == '\n');
                    lemma_not_occurs_at(p, en, j, m);
                }
            }
            lemma_find_from(b, st, 0);
            lemma_find_from(b, en, 0);
            assert(b.subrange(0, 13) == tb.subrange(0, 13));
            lemma_find_first_is(b, st, 0);
            assert(find_first(b, en) == Some(tb.len() - 13)) by {
                let k = tb.len() - 13;
                assert(b.subrange(k, k + 13) == tb.subrange(k, k + 13));
                assert forall|j: int| 0 <= j < k implies !#[trigger] occurs_at(b, en, j) by {
                    assert(!occurs_at(tb, en, j));
                    if occurs_at(b, en, j) {
                        assert(b.subrange(j, j + 13) == tb.subrange(j, j + 13));
                    }
                }
                lemma_find_first_is(b, en, k);
            }
            lemma_find_after_prefix(p, b, st, 0);
            lemma_find_after_prefix(p, b, en, tb.len() - 13);
            assert(r.subrange(0, p.len() as int) == p);
            assert(r.subrange((p.len() + tb.len()) as int, r.len() as int) == b.subrange(
                tb.len() as int,
                b.len() as int,
            ));
            assert(b == tb + b.subrange(tb.len() as int, b.len() as int));
        },
        _ => {},
    }
}

/// `s` holds no `'<'`.
pub open spec fn lacks_angle(s: Seq<char>) -> bool {
    forall|i: int| 0 <= i < s.len() ==> #[trigger] s[i] != '<'
}

proof fn lemma_lacks_angle_concat(a: Seq<char>, b: Seq<char>)
    requires
        lacks_angle(a),
        lacks_angle(b),
    ensures
        lacks_angle(a + b),
{
    assert forall|i: int| 0 <= i < (a + b).len() implies #[trigger] (a + b)[i] != '<' by {
        if i < a.len() {
            assert((a + b)[i] == a[i]);
        } else {
            assert((a + b)[i] == b[i - a.len()]);
        }
    }
}

proof fn lemma_decimal_lacks_angle(n: nat)
    ensures
        lacks_angle(decimal(n)),
    decreases n,
{
    if n >= 10 {
        lemma_decimal_lacks_angle(n / 10);
        lemma_lacks_angle_concat(decimal(n / 10), seq![crate::text::digit_char(n % 10)]);
        assert(decimal(n) == decimal(n / 10) + seq![crate::text::digit_char(n % 10)]);
    }
}

proof fn lemma_cava_stops_from_palette(c: &Colors, m: int)
    requires
        0 <= m <= 14,
        forall|i: int| 0 <= i < c.ansi_colors@.len() ==> lacks_angle(#[trigger] c.ansi_colors@[i]@),
    ensures
        forall|k: int|
            0 <= k < cava_stops_upto(c, m).len() ==> lacks_angle(#[trigger] cava_stops_upto(c, m)[k]),
    decreases m,
{
    if m > 0 {
        lemma_cava_stops_from_palette(c, m - 1);
        let prev = cava_stops_upto(c, m - 1);
        let slot = cava_slots()[m - 1];
        if slot < c.ansi_colors@.len() {
            assert(lacks_angle(c.ansi_colors@[slot]@));
            let cur = prev.push(c.ansi_colors@[slot]@);
            assert(cava_stops_upto(c, m) == cur);
            assert forall|k: int| 0 <= k < cur.len() implies lacks_angle(#[trigger] cur[k]) by {
                if k < prev.len() {
                    assert(cur[k] == prev[k]);
                }
            }
        } else {
            assert(cava_stops_upto(c, m) == prev);
        }
    }
}

proof fn lemma_gradient_lines_lack_angle(stops: Seq<Seq<char>>, n: int)
    requires
        0 <= n <= stops.len(),
        forall|k: int| 0 <= k < stops.len() ==> lacks_angle(#[trigger] stops[k]),
    ensures
        lacks_angle(gradient_lines(stops, n)),
    decreases n,
{
    reveal_strlit("gradient_color_");
    reveal_strlit(" = '");
    reveal_strlit("'\n");
    if n > 0 {
        lemma_gradient_lines_lack_angle(stops, n - 1);
        lemma_decimal_lacks_angle(n as nat);
        assert(lacks_angle("gradient_color_"@));
        assert(lacks_angle(" = '"@));
        assert(lacks_angle("'\n"@));
        let a = gradient_lines(stops, n - 1);
        lemma_lacks_angle_concat(a, "gradient_color_"@);
        lemma_lacks_angle_concat(a + "gradient_color_"@, decimal(n as nat));
        lemma_lacks_angle_concat(a + "gradient_color_"@ + decimal(n as nat), " = '"@);
        lemma_lacks_angle_concat(a + "gradient_color_"@ + decimal(n as nat) + " = '"@, stops[n - 1]);
        lemma_lacks_angle_concat(
            a + "gradient_color_"@ + decimal(n as nat) + " = '"@ + stops[n - 1],
            "'\n"@,
        );
    }
}

/// When no palette color holds a `<`, the cava block is fit for
/// `replace_block`: the closing marker occurs in it only at its end.
pub proof fn law_cava_block_well_formed(c: &Colors)
    requires
        forall|i: int| 0 <= i < c.ansi_colors@.len() ==> lacks_angle(#[trigger] c.ansi_colors@[i]@),
    ensures
        block_well_formed(cava_block_text(c)),
{
    let stops = cava_stops(c);
    lemma_cava_stops_from_palette(c, 14);
    lemma_gradient_lines_lack_angle(stops, stops.len() as int);
    lemma_decimal_lacks_angle(stops.len());
    lemma_marker_chars();
    reveal_strlit("# >>> astrium\n[color]\ngradient = 1\ngradient_count = ");
    reveal_strlit("\n");
    reveal_strlit("# <<< astrium\n");
    reveal_strlit("# >>> astrium");
    reveal_strlit("# <<< astrium");
    let head = "# >>> astrium\n[color]\ngradient = 1\ngradient_count = "@;
    assert(lacks_angle(head));
    assert(lacks_angle("\n"@));
    let p = head + decimal(stops.len()) + "\n"@ + gradient_lines(stops, stops.len() as int);
    lemma_lacks_angle_concat(head, decimal(stops.len()));
    lemma_lacks_angle_concat(head + decimal(stops.len()), "\n"@);
    lemma_lacks_angle_concat(head + decimal(stops.len()) + "\n"@, gradient_lines(
        stops,
        stops.len() as int,
    ));
    let b = cava_block_text(c);
    let en = block_end();
    assert("# <<< astrium\n"@ =~= en.push('\n'));
    assert(b =~= (p + en).push('\n'));
    let tb = p + en;
    assert(!is_white_space('\n') == false);
    assert(b[b.len() - 1] == '\n');
    assert(b[b.len() - 2] == 'm');
    lemma_trim_end_at(b, b.len() - 1);
    assert(trim_end(b) =~= tb);
    assert(tb.subrange(0, 13) =~= block_start()) by {
        assert(head.subrange(0, 13) =~= block_start());
    }
    assert(occurs_at(tb, block_start(), 0));
    let k = p.len() as int;
    assert(tb.subrange(k, k + 13) =~= en);
    assert forall|j: int| 0 <= j < k implies !#[trigger] occurs_at(tb, en, j) by {
        if j + 2 < k {
            assert(tb[j + 2] == p[j + 2]);
            lemma_not_occurs_at(tb, en, j, j + 2);
        } else {
            assert(tb[j + 2] == en[j + 2 - k]);
            lemma_not_occurs_at(tb, en, j, j + 2);
        }
    }
    lemma_find_first_is(tb, en, k);
}

/// Re-running the cava patch with the same palette changes nothing: the
/// config keeps one gradient block, however often the palette is applied.
pub proof fn law_cava_patch_idempotent(e: Seq<char>, c: &Colors)
    requires
        markers_in_order(e),
        forall|i: int| 0 <= i < c.ansi_colors@.len() ==> lacks_angle(#[trigger] c.ansi_colors@[i]@),
    ensures
        replace_block_text(replace_block_text(e, cava_block_text(c)), cava_block_text(c))
            == replace_block_text(e, cava_block_text(c)),
{
    law_cava_block_well_formed(c);
    law_replace_block_idempotent(e, cava_block_text(c));
}

/// The ansi color of gradient stop `k` of a full palette: `k` up to 7, then
/// `k + 1`, stepping over color 8.
pub open spec fn stop_color_index(k: int) -> int {
    if k <= 7 {
        k
    } else {
        k + 1
    }
}

/// The cava line of gradient stop `k` (stops count from 1).
pub open spec fn gradient_line(k: nat, color: Seq<char>) -> Seq<char> {
    "gradient_color_"@ + decimal(k) + " = '"@ + color + "'\n"@
}

proof fn lemma_gradient_lines_hold(stops: Seq<Seq<char>>, n: int)
    requires
        0 <= n <= stops.len(),
    ensures
        forall|j: int|
            0 <= j < n ==> #[trigger] occurs_at(
                gradient_lines(stops, n),
                gradient_line((j + 1) as nat, stops[j]),
                gradient_lines(stops, j).len() as int,
            ),
    decreases n,
{
    if n > 0 {
        lemma_gradient_lines_hold(stops, n - 1);
        let p = gradient_lines(stops, n - 1);
        let l = gradient_line(n as nat, stops[n - 1]);
        assert(gradient_lines(stops, n) =~= p + l);
        assert forall|j: int| 0 <= j < n implies #[trigger] occurs_at(
            gradient_lines(stops, n),
            gradient_line((j + 1) as nat, stops[j]),
            gradient_lines(stops, j).len() as int,
        ) by {
            let q = gradient_lines(stops, j).len() as int;
            let lj = gradient_line((j + 1) as nat, stops[j]);
            if j < n - 1 {
                assert(occurs_at(p, lj, q));
                assert((p + l).subrange(q, q + lj.len()) =~= p.subrange(q, q + lj.len()));
            } else {
                assert((p + l).subrange(q, q + lj.len()) =~= l);
            }
        }
    }
}

proof fn lemma_full_palette_stops(c: &Colors, m: int)
    requires
        0 <= m <= 14,
        c.ansi_colors@.len() >= 16,
    ensures
        cava_stops_upto(c, m).len() == m,
        forall|j: int|
            0 <= j < m ==> #[trigger] cava_stops_upto(c, m)[j] == c.ansi_colors@[cava_slots()[j]]@,
    decreases m,
{
    if m > 0 {
        lemma_full_palette_stops(c, m - 1);
        assert(cava_slots()[m - 1] < 16) by {
            lemma_cava_slot(m - 1);
        }
    }
}

proof fn lemma_cava_slot(j: int)
    requires
        0 <= j < 14,
    ensures
        cava_slots()[j] == if j < 7 {
            j + 1
        } else {
            j + 2
        },
{
    let s = cava_slots();
    if j == 0 {
    } else if j == 1 {
    } else if j == 2 {
    } else if j == 3 {
    } else if j == 4 {
    } else if j == 5 {
    } else if j == 6 {
    } else if j == 7 {
    } else if j == 8 {
    } else if j == 9 {
    } else if j == 10 {
    } else if j == 11 {
    } else if j == 12 {
    } else {
        assert(j == 13);
    }
}

/// With a full sixteen-color palette the cava block is a gradient of
/// fourteen stops: it says `gradient_count = 14`, and stop `k` is ansi color
/// `k` for `k` from 1 to 7 and ansi color `k + 1` for `k` from 8 to 14, so
/// colors 0 and 8 (background and grey) are left out and every other ansi
/// color is used, in order.
pub proof fn law_cava_gradient_skips_background_and_grey(c: &Colors)
    requires
        c.ansi_colors@.len() >= 16,
    ensures
        contains_seq(cava_block_text(c), "gradient_count = 14\n"@),
        forall|k: int|
            1 <= k <= 14 ==> contains_seq(
                cava_block_text(c),
                #[trigger] gradient_line(
                    k as nat,
                    c.ansi_colors@[stop_color_index(k)]@,
                ),
            ),
{
    reveal_strlit("gradient_count = 14\n");
    reveal_strlit("# >>> astrium\n[color]\ngradient = 1\ngradient_count = ");
    reveal_strlit("\n");
    lemma_full_palette_stops(c, 14);
    let stops = cava_stops(c);
    assert(stops.len() == 14);
    lemma_gradient_lines_hold(stops, 14);
    let head = "# >>> astrium\n[color]\ngradient = 1\ngradient_count = "@;
    let g = gradient_lines(stops, 14);
    let tail = "# <<< astrium\n"@;
    let b = cava_block_text(c);
    assert(decimal(14) =~= seq!['1', '4']) by {
        assert(decimal(1) == seq!['1']);
    }
    let pre = head + decimal(14) + "\n"@;
    assert(b == pre + g + tail);
    let cnt = "gradient_count = 14\n"@;
    let at = head.len() - 17;
    assert(b.subrange(at, at + cnt.len()) =~= cnt);
    assert(occurs_at(b, cnt, at));
    assert forall|k: int| 1 <= k <= 14 implies contains_seq(
        b,
        #[trigger] gradient_line(
            k as nat,
            c.ansi_colors@[stop_color_index(k)]@,
        ),
    ) by {
        let j = k - 1;
        lemma_cava_slot(j);
        assert(stops[j] == c.ansi_colors@[cava_slots()[j]]@);
        let lk = gradient_line(k as nat, stops[j]);
        let q = gradient_lines(stops, j).len() as int;
        assert(occurs_at(g, lk, q));
        let x = pre.len() + q;
        assert((pre + g + tail).subrange(x, x + lk.len()) =~= g.subrange(q, q + lk.len()));
        assert(occurs_at(b, lk, x));
    }
}

proof fn lemma_strip_one_hash(h: Seq<char>)
    requires
        h.len() == 0 || h[0] != '#',
    ensures
        trim_start_char(seq!['#'] + h, '#') == h,
{
    let s = seq!['#'] + h;
    assert(s[0] == '#');
    assert(s.drop_first() =~= h);
    assert(trim_start_char(h, '#') == h);
}

proof fn lemma_hyprland_pieces()
    ensures
        "general {\n    col.active_border = rgba("@ =~= "general {\n    "@
            + "col.active_border = rgba("@,
        "ee)\n    col.inactive_border = rgba("@ =~= "ee)"@ + "\n    "@
            + "col.inactive_border = rgba("@,
        "aa)\n}\ndecoration {\n    shadow {\n        color = rgba("@ =~= "aa)"@
            + "\n}\ndecoration {\n    shadow {\n        "@ + "color = rgba("@,
        "ee)\n    }\n}\n"@ =~= "ee)"@ + "\n    }\n}\n"@,
{
    reveal_strlit("general {\n    col.active_border = rgba(");
    reveal_strlit("general {\n    ");
    reveal_strlit("col.active_border = rgba(");
    reveal_strlit("ee)\n    col.inactive_border = rgba(");
    reveal_strlit("ee)");
    reveal_strlit("\n    ");
    reveal_strlit("col.inactive_border = rgba(");
    reveal_strlit("aa)\n}\ndecoration {\n    shadow {\n        color = rgba(");
    reveal_strlit("aa)");
    reveal_strlit("\n}\ndecoration {\n    shadow {\n        ");
    reveal_strlit("color = rgba(");
    reveal_strlit("ee)\n    }\n}\n");
    reveal_strlit("\n    }\n}\n");
}

/// Hyprland gets its border colors from the palette: with colors 4 and 8
/// present, written `#` followed by hex digits, the file sets the active
/// border to color 4 at alpha `ee`, the inactive border to color 8 at alpha
/// `aa`, and the shadow to the background at alpha `ee`, each without its
/// `#`; the live `hyprctl` keywords push the same two border values.
pub proof fn law_hyprland_borders_follow_palette(
    c: &Colors,
    h4: Seq<char>,
    h8: Seq<char>,
    hb: Seq<char>,
)
    requires
        c.ansi_colors@.len() > 8,
        c.ansi_colors@[4]@ == seq!['#'] + h4,
        c.ansi_colors@[8]@ == seq!['#'] + h8,
        c.background@ == seq!['#'] + hb,
        h4.len() == 0 || h4[0] != '#',
        h8.len() == 0 || h8[0] != '#',
        hb.len() == 0 || hb[0] != '#',
    ensures
        contains_seq(hyprland_text(c), "col.active_border = rgba("@ + h4 + "ee)"@),
        contains_seq(hyprland_text(c), "col.inactive_border = rgba("@ + h8 + "aa)"@),
        contains_seq(hyprland_text(c), "color = rgba("@ + hb + "ee)"@),
        "rgba("@ + hypr_active(c) + "ee)"@ == "rgba("@ + h4 + "ee)"@,
        "rgba("@ + hypr_inactive(c) + "aa)"@ == "rgba("@ + h8 + "aa)"@,
{
    lemma_strip_one_hash(h4);
    lemma_strip_one_hash(h8);
    lemma_strip_one_hash(hb);
    lemma_hyprland_pieces();
    let a0 = "general {\n    "@;
    let pa = "col.active_border = rgba("@;
    let b1 = "\n    "@;
    let pi = "col.inactive_border = rgba("@;
    let c1 = "\n}\ndecoration {\n    shadow {\n        "@;
    let ps = "color = rgba("@;
    let d1 = "\n    }\n}\n"@;
    let ee = "ee)"@;
    let aa = "aa)"@;
    let text = hyprland_text(c);
    assert(text == (a0 + pa) + h4 + (ee + b1 + pi) + h8 + (aa + c1 + ps) + hb + (ee + d1));
    lemma_three_fields(a0, pa, h4, ee, b1, pi, h8, aa, c1, ps, hb, d1);
}

/// Where the three fields of a file laid out as
/// `a0 pa h4 ee b1 pi h8 aa c1 ps hb ee d1` stand.
proof fn lemma_three_fields(
    a0: Seq<char>,
    pa: Seq<char>,
    h4: Seq<char>,
    ee: Seq<char>,
    b1: Seq<char>,
    pi: Seq<char>,
    h8: Seq<char>,
    aa: Seq<char>,
    c1: Seq<char>,
    ps: Seq<char>,
    hb: Seq<char>,
    d1: Seq<char>,
)
    ensures
        ({
            let text = (a0 + pa) + h4 + (ee + b1 + pi) + h8 + (aa + c1 + ps) + hb + (ee + d1);
            &&& contains_seq(text, pa + h4 + ee)
            &&& contains_seq(text, pi + h8 + aa)
            &&& contains_seq(text, ps + hb + ee)
        }),
{
    let text = (a0 + pa) + h4 + (ee + b1 + pi) + h8 + (aa + c1 + ps) + hb + (ee + d1);
    let t1 = pa + h4 + ee;
    let t2 = pi + h8 + aa;
    let t3 = ps + hb + ee;
    let k1 = a0.len() as int;
    assert(text.subrange(k1, k1 + t1.len()) =~= t1);
    assert(occurs_at(text, t1, k1));
    let k2 = k1 + t1.len() + b1.len();
    assert(text.subrange(k2, k2 + t2.len()) =~= t2);
    assert(occurs_at(text, t2, k2));
    let k3 = k2 + t2.len() + c1.len();
    assert(text.subrange(k3, k3 + t3.len()) =~= t3);
    assert(occurs_at(text, t3, k3));
}

/// Patching keeps the user's own config: in a file made of some text `pre`,
/// the `# >>> astrium` marker, any text `mid`, the `# <<< astrium` marker and
/// any text `post`, where neither marker occurs in `pre` and the closing
/// marker does not occur in `mid`, the patch gives `pre`, the new block (its
/// trailing white space trimmed) and `post`, unchanged around it.
pub proof fn law_replace_block_keeps_outside(
    pre: Seq<char>,
    mid: Seq<char>,
    post: Seq<char>,
    b: Seq<char>,
)
    requires
        forall|j: int| !#[trigger] occurs_at(pre, block_start(), j),
        forall|j: int| !#[trigger] occurs_at(pre, block_end(), j),
        forall|j: int| !#[trigger] occurs_at(mid, block_end(), j),
    ensures
        replace_block_text(pre + block_start() + mid + block_end() + post, b) == pre + trim_end(b)
            + post,
{
    lemma_marker_chars();
    let st = block_start();
    let en = block_end();
    let t = st + mid + en + post;
    let x = 13 + mid.len() as int;
    assert(t[0] == '#');
    assert(t.subrange(0, 13) =~= st);
    assert(occurs_at(t, st, 0));
    lemma_find_first_is(t, st, 0);
    assert(t.subrange(x, x + 13) =~= en);
    assert(occurs_at(t, en, x));
    assert forall|j: int| 0 <= j < x implies !#[trigger] occurs_at(t, en, j) by {
        if j == 0 {
            reveal_strlit("# >>> astrium");
            reveal_strlit("# <<< astrium");
            assert(t[2] == st[2]);
            lemma_not_occurs_at(t, en, 0, 2);
        } else if j < 13 {
            assert(t[j] == st[j]);
            lemma_not_occurs_at(t, en, j, j);
        } else if j + 13 <= x {
            if occurs_at(t, en, j) {
                assert(t.subrange(j, j + 13) =~= mid.subrange(j - 13, j - 13 + 13));
                assert(occurs_at(mid, en, j - 13));
            }
        } else {
            assert(t[x] == '#');
            lemma_not_occurs_at(t, en, j, x);
        }
    }
    lemma_find_first_is(t, en, x);
    assert forall|j: int| 0 <= j && j + 13 <= pre.len() implies !#[trigger] occurs_at(pre, st, j) by {}
    assert forall|j: int| 0 <= j && j + 13 <= pre.len() implies !#[trigger] occurs_at(pre, en, j) by {}
    lemma_find_after_prefix(pre, t, st, 0);
    lemma_find_after_prefix(pre, t, en, x);
    let e = pre + t;
    assert(pre + block_start() + mid + block_end() + post =~= e);
    assert(e.subrange(0, pre.len() as int) =~= pre);
    assert(e.subrange(pre.len() + x + 13, e.len() as int) =~= post);
}

} // verus!

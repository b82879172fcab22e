//! User-defined template rendering.
//!
//! A template is any text holding placeholders such as `{{background}}` or
//! `{{color5.strip}}`; rendering replaces every placeholder whose name is a
//! palette variable and leaves everything else as it was, so a typo stays
//! visible in the rendered file.

use vstd::prelude::*;
use crate::text::{
    is_white_space, lemma_trim_end_at, lemma_trim_start_at, chars_of, decimal, digit_char,
    push_char, push_decimal, string_of_range, trim, trim_bounds, trim_start_char, trim_start_char_string,
};
use crate::theme::Colors;

verus! {

/// The variables a template can reference, by name.
pub struct Vars {
    entries: Vec<(String, String)>,
}

/// The map that a list of `(name, value)` insertions leaves behind: a later
/// insertion of a name replaces an earlier one.
pub closed spec fn entries_map(e: Seq<(String, String)>) -> Map<Seq<char>, Seq<char>>
    decreases e.len(),
{
    if e.len() == 0 {
        Map::empty()
    } else {
        entries_map(e.drop_last()).insert(e.last().0@, e.last().1@)
    }
}

impl View for Vars {
    type V = Map<Seq<char>, Seq<char>>;

    closed spec fn view(&self) -> Map<Seq<char>, Seq<char>> {
        entries_map(self.entries@)
    }
}

proof fn lemma_entries_map_suffix_absent(e: Seq<(String, String)>, i: int, k: Seq<char>)
    requires
        0 <= i <= e.len(),
        forall|j: int| i <= j < e.len() ==> (#[trigger] e[j]).0@ != k,
    ensures
        entries_map(e).contains_key(k) == entries_map(e.take(i)).contains_key(k),
        entries_map(e)[k] == entries_map(e.take(i))[k],
    decreases e.len() - i,
{
    if i < e.len() {
        let d = e.drop_last();
        assert forall|j: int| i <= j < d.len() implies (#[trigger] d[j]).0@ != k by {
            assert(d[j] == e[j]);
        }
        lemma_entries_map_suffix_absent(d, i, k);
        assert(d.take(i) == e.take(i));
        assert(e.last() == e[e.len() - 1]);
    } else {
        assert(e.take(i) == e);
    }
}

impl Vars {
    /// An empty variable set.
    pub fn new() -> (v: Vars)
        ensures
            v@ == Map::<Seq<char>, Seq<char>>::empty(),
    {
        Vars { entries: Vec::new() }
    }

    /// Sets `key` to `value`, replacing any earlier value of `key`.
    pub fn insert(&mut self, key: String, value: String)
        ensures
            final(self)@ == old(self)@.insert(key@, value@),
    {
        let ghost e = self.entries@;
        self.entries.push((key, value));
        assert(self.entries@.drop_last() == e);
    }

    /// The value of `key`, if it is set.
    pub fn get(&self, key: &str) -> (r: Option<&String>)
        ensures
            r is Some <==> self@.contains_key(key@),
            r matches Some(v) ==> v@ == self@[key@],
    {
        let k = String::from_str(key);
        let mut i = self.entries.len();
        while i > 0
            invariant
                i <= self.entries.len(),
                k@ == key@,
                forall|j: int| i <= j < self.entries@.len() ==> (#[trigger] self.entries@[j]).0@ != key@,
            decreases i,
        {
            if self.entries[i - 1].0 == k {
                proof {
                    let e = self.entries@;
                    lemma_entries_map_suffix_absent(e, i as int, key@);
                    assert(e.take(i as int).drop_last() == e.take(i - 1));
                    assert(e.take(i as int).last() == e[i - 1]);
                }
                return Some(&self.entries[i - 1].1);
            }
            i = i - 1;
        }
        proof {
            lemma_entries_map_suffix_absent(self.entries@, 0, key@);
        }
        None
    }
}

/// The name of the `i`-th ansi color: `color{i}`.
pub open spec fn color_key(i: nat) -> Seq<char> {
    "color"@ + decimal(i)
}

/// The name of the hex-digits-only twin of a color variable.
pub open spec fn strip_key(name: Seq<char>) -> Seq<char> {
    name + ".strip"@
}

/// Every color variable with its value: the base colors, the cursor (an
/// alias of the foreground), then the ansi colors in order.
pub open spec fn palette_colors(c: &Colors) -> Seq<(Seq<char>, Seq<char>)> {
    seq![("background"@, c.background@), ("foreground"@, c.foreground@), ("cursor"@, c.foreground@)]
        + Seq::new(c.ansi_colors@.len(), |i: int| (color_key(i as nat), c.ansi_colors@[i]@))
}

/// `m` holds the first `n` color variables of `c` and their `.strip` twins,
/// and nothing else.
pub open spec fn holds_colors(c: &Colors, n: int, m: Map<Seq<char>, Seq<char>>) -> bool {
    let p = palette_colors(c);
    &&& forall|j: int|
        0 <= j < n ==> {
            &&& m.contains_key(#[trigger] p[j].0)
            &&& m[p[j].0] == p[j].1
            &&& m.contains_key(strip_key(p[j].0))
            &&& m[strip_key(p[j].0)] == trim_start_char(p[j].1, '#')
        }
    &&& forall|k: Seq<char>|
        #[trigger] m.contains_key(k) ==> exists|j: int|
            0 <= j < n && (k == (#[trigger] p[j]).0 || k == strip_key(p[j].0))
}

proof fn lemma_decimal_digits(n: nat)
    ensures
        decimal(n).len() >= 1,
        forall|i: int| 0 <= i < decimal(n).len() ==> 48 <= (#[trigger] decimal(n)[i]) as u32 <= 57,
    decreases n,
{
    if n >= 10 {
        lemma_decimal_digits(n / 10);
    }
}

proof fn lemma_decimal_injective(a: nat, b: nat)
    requires
        decimal(a) == decimal(b),
    ensures
        a == b,
    decreases a,
{
    lemma_decimal_digits(a / 10);
    lemma_decimal_digits(b / 10);
    if a < 10 && b < 10 {
        assert(decimal(a)[0] == digit_char(a));
        assert(decimal(b)[0] == digit_char(b));
    } else if a < 10 {
        assert(decimal(b).len() >= 2);
    } else if b < 10 {
        assert(decimal(a).len() >= 2);
    } else {
        assert(decimal(a).last() == digit_char(a % 10));
        assert(decimal(b).last() == digit_char(b % 10));
        assert(decimal(a).drop_last() == decimal(a / 10));
        assert(decimal(b).drop_last() == decimal(b / 10));
        lemma_decimal_injective(a / 10, b / 10);
    }
}

/// `s` holds no `'.'`.
pub open spec fn dotless(s: Seq<char>) -> bool {
    forall|i: int| 0 <= i < s.len() ==> #[trigger] s[i] != '.'
}

proof fn lemma_palette_names(c: &Colors, a: int, b: int)
    requires
        0 <= a < palette_colors(c).len(),
        0 <= b < palette_colors(c).len(),
    ensures
        dotless(palette_colors(c)[a].0),
        a != b ==> palette_colors(c)[a].0 != palette_colors(c)[b].0,
{
    reveal_strlit("background");
    reveal_strlit("foreground");
    reveal_strlit("cursor");
    reveal_strlit("color");
    let p = palette_colors(c);
    if a >= 3 {
        lemma_decimal_digits((a - 3) as nat);
        let d = decimal((a - 3) as nat);
        assert forall|i: int| 0 <= i < p[a].0.len() implies #[trigger] p[a].0[i] != '.' by {
            if i >= 5 {
                assert(p[a].0[i] == d[i - 5]);
            }
        }
    }
    assert(p[0].0[0] == 'b' && p[1].0[0] == 'f' && p[2].0[0] == 'c' && p[2].0[1] == 'u');
    assert(p[0].0.len() > 1 && p[1].0.len() > 1 && p[2].0.len() > 1);
    if a != b {
        if a < 3 && b < 3 {
            if p[a].0 == p[b].0 {
                assert(p[a].0[0] == p[b].0[0] && p[a].0[1] == p[b].0[1]);
            }
        } else if a >= 3 && b >= 3 {
            if p[a].0 == p[b].0 {
                assert(decimal((a - 3) as nat) == p[a].0.subrange(5, p[a].0.len() as int));
                assert(decimal((b - 3) as nat) == p[b].0.subrange(5, p[b].0.len() as int));
                lemma_decimal_injective((a - 3) as nat, (b - 3) as nat);
            }
        } else if a >= 3 {
            assert(p[a].0[0] == 'c' && p[a].0[1] == 'o');
            if p[a].0 == p[b].0 {
                assert(p[a].0[0] == p[b].0[0] && p[a].0[1] == p[b].0[1]);
            }
        } else {
            assert(p[b].0[0] == 'c' && p[b].0[1] == 'o');
            if p[a].0 == p[b].0 {
                assert(p[a].0[0] == p[b].0[0] && p[a].0[1] == p[b].0[1]);
            }
        }
    }
}

proof fn lemma_strip_key(a: Seq<char>, b: Seq<char>)
    requires
        dotless(b),
    ensures
        strip_key(a) != b,
        strip_key(a) == strip_key(b) ==> a == b,
{
    reveal_strlit(".strip");
    assert(strip_key(a)[a.len() as int] == '.');
    if strip_key(a) == strip_key(b) {
        assert(strip_key(a).len() == a.len() + 6);
        assert(strip_key(b).len() == b.len() + 6);
        assert(a.len() == b.len());
        assert(a == strip_key(a).subrange(0, a.len() as int));
        assert(b == strip_key(b).subrange(0, b.len() as int));
    }
}

proof fn lemma_holds_colors_step(c: &Colors, n: int, m: Map<Seq<char>, Seq<char>>)
    requires
        0 <= n < palette_colors(c).len(),
        holds_colors(c, n, m),
    ensures
        holds_colors(
            c,
            n + 1,
            m.insert(palette_colors(c)[n].0, palette_colors(c)[n].1).insert(
                strip_key(palette_colors(c)[n].0),
                trim_start_char(palette_colors(c)[n].1, '#'),
            ),
        ),
{
    let p = palette_colors(c);
    let k = p[n].0;
    let sk = strip_key(k);
    let m2 = m.insert(k, p[n].1).insert(sk, trim_start_char(p[n].1, '#'));
    lemma_palette_names(c, n, n);
    lemma_strip_key(k, k);
    assert forall|j: int| 0 <= j < n + 1 implies {
        &&& m2.contains_key(#[trigger] p[j].0)
        &&& m2[p[j].0] == p[j].1
        &&& m2.contains_key(strip_key(p[j].0))
        &&& m2[strip_key(p[j].0)] == trim_start_char(p[j].1, '#')
    } by {
        if j < n {
            lemma_palette_names(c, j, n);
            lemma_palette_names(c, n, j);
            lemma_strip_key(k, p[j].0);
            lemma_strip_key(p[j].0, k);
        }
    }
    assert forall|q: Seq<char>| #[trigger] m2.contains_key(q) implies exists|j: int|
        0 <= j < n + 1 && (q == (#[trigger] p[j]).0 || q == strip_key(p[j].0)) by {
        if q != k && q != sk {
            assert(m.contains_key(q));
        } else {
            assert(q == p[n].0 || q == strip_key(p[n].0));
        }
    }
}

proof fn lemma_not_alpha(c: &Colors, j: int)
    requires
        0 <= j < palette_colors(c).len(),
    ensures
        palette_colors(c)[j].0 != "alpha"@,
        strip_key(palette_colors(c)[j].0) != "alpha"@,
{
    let p = palette_colors(c);
    reveal_strlit("alpha");
    assert(dotless("alpha"@));
    lemma_strip_key(p[j].0, "alpha"@);
    if j >= 3 {
        reveal_strlit("color");
        assert(p[j].0[0] == 'c');
    } else if j == 0 {
        reveal_strlit("background");
        assert(p[j].0[0] == 'b');
    } else if j == 1 {
        reveal_strlit("foreground");
        assert(p[j].0[0] == 'f');
    } else {
        reveal_strlit("cursor");
        assert(p[j].0[0] == 'c');
    }
}

proof fn lemma_holds_colors_alpha(
    c: &Colors,
    before: Map<Seq<char>, Seq<char>>,
    after: Map<Seq<char>, Seq<char>>,
)
    requires
        holds_colors(c, palette_colors(c).len() as int, before),
        after == before.insert("alpha"@, c.alpha@),
    ensures
        forall|j: int|
            0 <= j < palette_colors(c).len() ==> {
                let (name, hex) = #[trigger] palette_colors(c)[j];
                &&& after.contains_key(name)
                &&& after[name] == hex
                &&& after.contains_key(strip_key(name))
                &&& after[strip_key(name)] == trim_start_char(hex, '#')
            },
        after.contains_key("alpha"@),
        after["alpha"@] == c.alpha@,
        forall|k: Seq<char>|
            #[trigger] after.contains_key(k) ==> k == "alpha"@ || exists|j: int|
                0 <= j < palette_colors(c).len() && (k == (#[trigger] palette_colors(c)[j]).0
                    || k == strip_key(palette_colors(c)[j].0)),
{
    let p = palette_colors(c);
    assert forall|j: int| 0 <= j < p.len() implies {
        let (name, hex) = #[trigger] p[j];
        &&& after.contains_key(name)
        &&& after[name] == hex
        &&& after.contains_key(strip_key(name))
        &&& after[strip_key(name)] == trim_start_char(hex, '#')
    } by {
        lemma_not_alpha(c, j);
    }
}

/// Sets `name` to `hex` and `name.strip` to `hex` without its leading `#`s.
fn insert_color(vars: &mut Vars, name: String, hex: &String)
    ensures
        final(vars)@ == old(vars)@.insert(name@, hex@).insert(
            strip_key(name@),
            trim_start_char(hex@, '#'),
        ),
{
    vars.insert(name.clone(), hex.clone());
    let mut strip = name;
    strip.append(".strip");
    vars.insert(strip, trim_start_char_string(hex.as_str(), '#'));
}

/// The full variable set exposed to templates: every color variable as
/// `{{name}}` (with its leading `#`) and `{{name.strip}}` (hex digits only),
/// plus `{{alpha}}`.
pub fn build_vars(colors: &Colors) -> (vars: Vars)
    ensures
        forall|j: int|
            0 <= j < palette_colors(colors).len() ==> {
                let (name, hex) = #[trigger] palette_colors(colors)[j];
                &&& vars@.contains_key(name)
                &&& vars@[name] == hex
                &&& vars@.contains_key(strip_key(name))
                &&& vars@[strip_key(name)] == trim_start_char(hex, '#')
            },
        vars@.contains_key("alpha"@),
        vars@["alpha"@] == colors.alpha@,
        forall|k: Seq<char>|
            #[trigger] vars@.contains_key(k) ==> k == "alpha"@ || exists|j: int|
                0 <= j < palette_colors(colors).len() && (k == (#[trigger] palette_colors(
                    colors,
                )[j]).0 || k == strip_key(palette_colors(colors)[j].0)),
{
    let ghost p = palette_colors(colors);
    let mut vars = Vars::new();
    proof {
        lemma_holds_colors_step(colors, 0, vars@);
    }
    insert_color(&mut vars, String::from_str("background"), &colors.background);
    proof {
        lemma_holds_colors_step(colors, 1, vars@);
    }
    insert_color(&mut vars, String::from_str("foreground"), &colors.foreground);
    proof {
        lemma_holds_colors_step(colors, 2, vars@);
    }
    insert_color(&mut vars, String::from_str("cursor"), &colors.foreground);
    let n = colors.ansi_colors.len();
    for i in 0..n
        invariant
            n == colors.ansi_colors.len(),
            p == palette_colors(colors),
            holds_colors(colors, 3 + i, vars@),
    {
        let mut name = String::from_str("color");
        push_decimal(&mut name, i);
        proof {
            lemma_holds_colors_step(colors, 3 + i, vars@);
            assert(p[3 + i] == (color_key(i as nat), colors.ansi_colors@[i as int]@));
        }
        insert_color(&mut vars, name, &colors.ansi_colors[i]);
    }
    let ghost before = vars@;
    vars.insert(String::from_str("alpha"), colors.alpha.clone());
    proof {
        lemma_holds_colors_alpha(colors, before, vars@);
    }
    vars
}

/// The first `k` with `t[k] == '}'` and `t[k + 1] == '}'`: where `"}}"` is
/// first found in `t`.
pub open spec fn close_offset(t: Seq<char>) -> Option<nat>
    decreases t.len(),
{
    if t.len() < 2 {
        None
    } else if t[0] == '}' && t[1] == '}' {
        Some(0)
    } else {
        match close_offset(t.drop_first()) {
            Some(k) => Some(k + 1),
            None => None,
        }
    }
}

pub open spec fn closes_at(t: Seq<char>, k: int) -> bool {
    0 <= k && k + 1 < t.len() && t[k] == '}' && t[k + 1] == '}'
}

pub proof fn lemma_close_offset(t: Seq<char>)
    ensures
        close_offset(t) matches Some(k) ==> closes_at(t, k as int) && forall|m: int|
            0 <= m < k ==> !#[trigger] closes_at(t, m),
        close_offset(t) is None ==> forall|m: int| !#[trigger] closes_at(t, m),
    decreases t.len(),
{
    if t.len() >= 2 && !(t[0] == '}' && t[1] == '}') {
        let d = t.drop_first();
        lemma_close_offset(d);
        assert forall|m: int| 1 <= m implies closes_at(t, m) == #[trigger] closes_at(d, m - 1) by {
            if 0 <= m - 1 && m + 1 < t.len() {
                assert(d[m - 1] == t[m]);
                assert(d[m] == t[m + 1]);
            }
        }
        assert(!closes_at(t, 0));
        if let Some(k) = close_offset(d) {
            assert(closes_at(d, k as int));
            assert forall|m: int| 0 <= m < k + 1 implies !#[trigger] closes_at(t, m) by {
                if m >= 1 {
                    assert(closes_at(t, m) == closes_at(d, m - 1));
                }
            }
        } else {
            assert forall|m: int| !#[trigger] closes_at(t, m) by {
                if m >= 1 {
                    assert(closes_at(t, m) == closes_at(d, m - 1));
                }
            }
        }
    }
}

/// The placeholder that `t` starts with, if any: the trimmed name between
/// `{{` and the first `}}` after it, and how many chars the placeholder spans.
pub open spec fn placeholder(t: Seq<char>) -> Option<(Seq<char>, int)> {
    if t.len() >= 2 && t[0] == '{' && t[1] == '{' {
        match close_offset(t.subrange(2, t.len() as int)) {
            Some(k) => Some((trim(t.subrange(2, 2 + k as int)), 4 + k as int)),
            None => None,
        }
    } else {
        None
    }
}

pub proof fn lemma_placeholder_len(t: Seq<char>)
    ensures
        placeholder(t) matches Some((key, n)) ==> 4 <= n <= t.len(),
{
    if t.len() >= 2 && t[0] == '{' && t[1] == '{' {
        lemma_close_offset(t.subrange(2, t.len() as int));
    }
}

/// Single-pass rendering of `t`: each placeholder whose name is in `vars` is
/// replaced by its value (which is not scanned again); every other char is
/// copied as it is.
pub open spec fn expand(t: Seq<char>, vars: Map<Seq<char>, Seq<char>>) -> Seq<char>
    decreases t.len(),
{
    if t.len() == 0 {
        seq![]
    } else {
        match placeholder(t) {
            Some(p) => {
                if vars.contains_key(p.0) {
                    proof {
                        lemma_placeholder_len(t);
                    }
                    vars[p.0] + expand(t.subrange(p.1, t.len() as int), vars)
                } else {
                    seq![t[0]] + expand(t.drop_first(), vars)
                }
            },
            None => seq![t[0]] + expand(t.drop_first(), vars),
        }
    }
}

/// Single-pass `{{key}}` substitution. White space inside the braces is
/// trimmed, so `{{ base }}` and `{{base}}` are equivalent; unknown
/// placeholders are left as they are.
pub fn substitute(src: &str, vars: &Vars) -> (out: String)
    ensures
        out@ == expand(src@, vars@),
{
    let cs = chars_of(src);
    let n = cs.len();
    let mut out = String::new();
    let mut i: usize = 0;
    assert(cs@.subrange(0, n as int) == cs@);
    while i < n
        invariant
            i <= n == cs.len(),
            cs@ == src@,
            out@ + expand(cs@.subrange(i as int, n as int), vars@) == expand(src@, vars@),
        decreases n - i,
    {
        let ghost t = cs@.subrange(i as int, n as int);
        if i + 1 < n && cs[i] == '{' && cs[i + 1] == '{' {
            let ghost rest = t.subrange(2, t.len() as int);
            assert(rest == cs@.subrange(i + 2, n as int));
            let mut j = i + 2;
            while j < n - 1 && !(cs[j] == '}' && cs[j + 1] == '}')
                invariant
                    i + 2 <= j <= n == cs.len(),
                    rest == cs@.subrange(i + 2, n as int),
                    forall|m: int| 0 <= m < j - (i + 2) ==> !#[trigger] closes_at(rest, m),
                decreases n - j,
            {
                assert(!closes_at(rest, j - (i + 2))) by {
                    if j + 1 < n {
                        assert(rest[j - (i + 2)] == cs@[j as int]);
                        assert(rest[j - (i + 2) + 1] == cs@[j + 1]);
                    }
                }
                j = j + 1;
            }
            proof {
                lemma_close_offset(rest);
            }
            if j < n - 1 {
                let ghost k = j - (i + 2);
                assert(closes_at(rest, k)) by {
                    assert(rest[k] == cs@[j as int]);
                    assert(rest[k + 1] == cs@[j + 1]);
                }
                assert(close_offset(rest) == Some(k as nat)) by {
                    if let Some(k2) = close_offset(rest) {
                        if k2 < k {
                        } else if k2 > k {
                        }
                    }
                }
                let (lo, hi) = trim_bounds(&cs, i + 2, j);
                assert(t.subrange(2, 2 + k) == cs@.subrange(i + 2, j as int));
                let key = string_of_range(&cs, lo, hi);
                assert(placeholder(t) == Some((key@, 4 + k)));
                match vars.get(key.as_str()) {
                    Some(v) => {
                        out.append(v.as_str());
                        assert(t.subrange(4 + k, t.len() as int) == cs@.subrange(
                            j + 2,
                            n as int,
                        ));
                        i = j + 2;
                        continue ;
                    },
                    None => {},
                }
            } else {
                assert(close_offset(rest) is None) by {
                    if let Some(k2) = close_offset(rest) {
                        assert(closes_at(rest, k2 as int));
                        assert(rest[k2 as int] == cs@[i + 2 + k2]);
                        assert(rest[k2 + 1int] == cs@[i + 2 + k2 + 1]);
                    }
                }
            }
        }
        push_char(&mut out, cs[i]);
        assert(t.drop_first() == cs@.subrange(i + 1, n as int));
        assert(t[0] == cs@[i as int]);
        i = i + 1;
    }
    assert(cs@.subrange(n as int, n as int) =~= Seq::<char>::empty());
    out
}

/// `t` holds no placeholder whose name is in `vars`.
pub open spec fn no_known_placeholder(t: Seq<char>, vars: Map<Seq<char>, Seq<char>>) -> bool {
    forall|i: int|
        0 <= i < t.len() ==> ((#[trigger] placeholder(t.subrange(i, t.len() as int))) matches Some(
            p,
        ) ==> !vars.contains_key(p.0))
}

/// Unknown placeholders are left untouched: when no placeholder of `t`
/// names a variable, rendering gives `t` back unchanged.
pub proof fn law_unknown_placeholders_kept(t: Seq<char>, vars: Map<Seq<char>, Seq<char>>)
    requires
        no_known_placeholder(t, vars),
    ensures
        expand(t, vars) == t,
    decreases t.len(),
{
    if t.len() > 0 {
        let d = t.drop_first();
        assert(t.subrange(0, t.len() as int) == t);
        assert(placeholder(t.subrange(0, t.len() as int)) == placeholder(t));
        assert forall|i: int| 0 <= i < d.len() implies ((#[trigger] placeholder(
            d.subrange(i, d.len() as int),
        )) matches Some(p) ==> !vars.contains_key(p.0)) by {
            assert(d.subrange(i, d.len() as int) == t.subrange(i + 1, t.len() as int));
        }
        law_unknown_placeholders_kept(d, vars);
        assert(t == seq![t[0]] + d);
    }
}

/// A placeholder names its variable with the white space around the name
/// trimmed: `{{ w }}` renders as the value of `trim(w)`, so `{{ base }}` and
/// `{{base}}` are equivalent.
pub proof fn law_placeholder_name_trimmed(w: Seq<char>, vars: Map<Seq<char>, Seq<char>>)
    requires
        forall|i: int| 0 <= i < w.len() ==> #[trigger] w[i] != '}',
        vars.contains_key(trim(w)),
    ensures
        expand(seq!['{', '{'] + w + seq!['}', '}'], vars) == vars[trim(w)],
{
    let e = Seq::<char>::empty();
    law_text_after_placeholder_kept(w, e, vars);
    assert(seq!['{', '{'] + w + seq!['}', '}'] + e =~= seq!['{', '{'] + w + seq!['}', '}']);
    assert(expand(e, vars) == e);
    assert(vars[trim(w)] + e =~= vars[trim(w)]);
}

/// Rendering goes on right after a substituted placeholder: `{{w}}` followed
/// by any text `s` renders as the value of `trim(w)` followed by the
/// rendering of `s`, so nothing after the placeholder is lost or merged.
pub proof fn law_text_after_placeholder_kept(
    w: Seq<char>,
    s: Seq<char>,
    vars: Map<Seq<char>, Seq<char>>,
)
    requires
        forall|i: int| 0 <= i < w.len() ==> #[trigger] w[i] != '}',
        vars.contains_key(trim(w)),
    ensures
        expand(seq!['{', '{'] + w + seq!['}', '}'] + s, vars) == vars[trim(w)] + expand(s, vars),
{
    let t = seq!['{', '{'] + w + seq!['}', '}'] + s;
    let rest = t.subrange(2, t.len() as int);
    assert(rest =~= w + seq!['}', '}'] + s);
    lemma_close_offset(rest);
    let k = w.len() as int;
    assert(rest[k] == '}' && rest[k + 1] == '}');
    assert(closes_at(rest, k));
    assert forall|m: int| 0 <= m < k implies !#[trigger] closes_at(rest, m) by {
        assert(rest[m] == w[m]);
    }
    assert(close_offset(rest) == Some(k as nat)) by {
        if let Some(k2) = close_offset(rest) {
            if k2 < k {
                assert(!closes_at(rest, k2 as int));
            }
        }
    }
    assert(t.subrange(2, 2 + k) =~= w);
    assert(placeholder(t) == Some((trim(w), 4 + k)));
    assert(t.subrange(4 + k, t.len() as int) =~= s);
}

/// Every char but `{` is copied as it is, wherever it stands: a `c` other
/// than `{` followed by any text `s` renders as `c` followed by the rendering
/// of `s`.
pub proof fn law_plain_char_copied(c: char, s: Seq<char>, vars: Map<Seq<char>, Seq<char>>)
    requires
        c != '{',
    ensures
        expand(seq![c] + s, vars) == seq![c] + expand(s, vars),
{
    let t = seq![c] + s;
    assert(t[0] == c);
    assert(placeholder(t) is None);
    assert(t.drop_first() =~= s);
}

/// A char that may appear in a variable name: an ASCII letter or digit, or
/// a `.`.
pub open spec fn name_char(ch: char) -> bool {
    let v = ch as u32;
    (48 <= v <= 57) || (97 <= v <= 122) || v == 46
}

/// `s` is made of name chars only.
pub open spec fn plain_name(s: Seq<char>) -> bool {
    forall|i: int| 0 <= i < s.len() ==> name_char(#[trigger] s[i])
}

proof fn lemma_plain_name_concat(a: Seq<char>, b: Seq<char>)
    requires
        plain_name(a),
        plain_name(b),
    ensures
        plain_name(a + b),
{
    assert forall|i: int| 0 <= i < (a + b).len() implies name_char(#[trigger] (a + b)[i]) by {
        if i < a.len() {
            assert((a + b)[i] == a[i]);
        } else {
            assert((a + b)[i] == b[i - a.len()]);
        }
    }
}

proof fn lemma_palette_name_plain(c: &Colors, j: int)
    requires
        0 <= j < palette_colors(c).len(),
    ensures
        plain_name(palette_colors(c)[j].0),
        plain_name(strip_key(palette_colors(c)[j].0)),
        palette_colors(c)[j].0.len() > 0,
{
    let p = palette_colors(c);
    reveal_strlit(".strip");
    assert(plain_name(".strip"@));
    if j == 0 {
        reveal_strlit("background");
        assert(plain_name(p[j].0));
    } else if j == 1 {
        reveal_strlit("foreground");
        assert(plain_name(p[j].0));
    } else if j == 2 {
        reveal_strlit("cursor");
        assert(plain_name(p[j].0));
    } else {
        reveal_strlit("color");
        assert(plain_name("color"@));
        lemma_decimal_digits((j - 3) as nat);
        assert(plain_name(decimal((j - 3) as nat)));
        lemma_plain_name_concat("color"@, decimal((j - 3) as nat));
    }
    lemma_plain_name_concat(p[j].0, ".strip"@);
}

proof fn lemma_plain_name_untrimmed(s: Seq<char>)
    requires
        plain_name(s),
        s.len() > 0,
    ensures
        trim(s) == s,
        forall|i: int| 0 <= i < s.len() ==> #[trigger] s[i] != '}',
{
    assert(!is_white_space(s[0]));
    lemma_trim_start_at(s, 0);
    assert(s.subrange(0, s.len() as int) == s);
    assert(!is_white_space(s[s.len() - 1]));
    lemma_trim_end_at(s, s.len() as int);
}

/// Every palette color renders through its placeholders: with the variables
/// `build_vars` makes, `{{name}}` gives the color and `{{name.strip}}` gives
/// it without its leading `#`s.
pub proof fn law_palette_placeholders(c: &Colors, vars: Map<Seq<char>, Seq<char>>, j: int)
    requires
        0 <= j < palette_colors(c).len(),
        forall|k: int|
            0 <= k < palette_colors(c).len() ==> {
                let (name, hex) = #[trigger] palette_colors(c)[k];
                &&& vars.contains_key(name)
                &&& vars[name] == hex
                &&& vars.contains_key(strip_key(name))
                &&& vars[strip_key(name)] == trim_start_char(hex, '#')
            },
    ensures
        expand(seq!['{', '{'] + palette_colors(c)[j].0 + seq!['}', '}'], vars)
            == palette_colors(c)[j].1,
        expand(seq!['{', '{'] + strip_key(palette_colors(c)[j].0) + seq!['}', '}'], vars)
            == trim_start_char(palette_colors(c)[j].1, '#'),
{
    let p = palette_colors(c);
    let (name, hex) = p[j];
    lemma_palette_name_plain(c, j);
    lemma_plain_name_untrimmed(name);
    lemma_plain_name_untrimmed(strip_key(name));
    law_placeholder_name_trimmed(name, vars);
    law_placeholder_name_trimmed(strip_key(name), vars);
}

} // verus!

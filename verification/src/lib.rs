//! Wallpaper-driven palette building: the template engine, the palette
//! writers' text, and the decisions of the retheme pipeline.
//!
//! The pipeline's side effects (running `awww`, reading the image, writing
//! files, reloading applications) are carried out by the caller; this crate
//! decides which of them happen, in which order, and which failures abort.

pub mod broadcast;
pub mod color;
pub mod config;
pub mod template;
pub mod text;
pub mod theme;
pub mod watch;

use vstd::prelude::*;
use crate::broadcast::{find_chars, find_first, lemma_find_first_is, lemma_find_from, lemma_not_occurs_at, occurs_at};
pub use crate::broadcast::{law_cava_patch_idempotent, law_hex_roundtrip, law_replace_block_idempotent};
use crate::config::OutputConfig;
use crate::text::{
    chars_of, is_white_space, lemma_trim_end_at, lemma_trim_end_char_at, lemma_trim_start_at,
    string_of_range, sub_vec, trim, trim_bounds, trim_end_char,
};

verus! {

/// One unit of work of a retheme.
#[derive(Clone, Copy, Debug, PartialEq, Eq, Structural)]
pub enum Step {
    /// `awww img <image>`; its failure is ignored.
    SetWallpaper,
    /// Read the image and extract the source color.
    ExtractSource,
    /// Build the palette from the source color.
    BuildColors,
    /// Create the output directory.
    CreateDir,
    /// Write `colors.json`.
    WriteColorsJson,
    /// Write `colors-kitty.conf`.
    WriteKittyConf,
    /// `kitty @ set-colors --all`; its failure is only reported.
    ReloadKitty,
    /// Write `colors-hyprland.conf`.
    WriteHyprlandConf,
    /// `hyprctl keyword` for the border colors; failures are only reported.
    ReloadHyprland,
    /// Write `nvim-theme.lua`.
    WriteNvimTheme,
    /// Ask every running Neovim to reload; failures drop stale sockets.
    NotifyNvim,
    /// Patch the gradient block of the user's cava config.
    PatchCavaConfig,
    /// Signal running cava instances to reload; its failure is ignored.
    ReloadCava,
    /// Write the quickshell palette to `/tmp/qs_colors.json`.
    WriteQuickshell,
    /// Write the quickshell palette into the output directory.
    WriteQuickshellFile,
    /// Write the cava gradient block into the output directory.
    WriteCavaGradient,
    /// Render every user template; a broken one is only reported.
    RenderTemplates,
}

/// Whether a failure of `s` aborts the retheme.
pub open spec fn fatal(s: Step) -> bool {
    match s {
        Step::SetWallpaper | Step::BuildColors | Step::ReloadKitty | Step::ReloadHyprland
        | Step::NotifyNvim | Step::ReloadCava | Step::RenderTemplates => false,
        _ => true,
    }
}

/// Whether `s` acts on the running desktop or outside the output directory:
/// the wallpaper, live reloads, the user's cava config, `/tmp`, the user's
/// template outputs.
pub open spec fn touches_desktop(s: Step) -> bool {
    match s {
        Step::SetWallpaper | Step::ReloadKitty | Step::ReloadHyprland | Step::NotifyNvim
        | Step::PatchCavaConfig | Step::ReloadCava | Step::WriteQuickshell
        | Step::RenderTemplates => true,
        _ => false,
    }
}

/// Whether a failure of `step` aborts the retheme.
pub fn is_fatal(step: Step) -> (b: bool)
    ensures
        b == fatal(step),
{
    match step {
        Step::SetWallpaper | Step::BuildColors | Step::ReloadKitty | Step::ReloadHyprland
        | Step::NotifyNvim | Step::ReloadCava | Step::RenderTemplates => false,
        _ => true,
    }
}

/// The steps that write and push the palette to the enabled outputs.
pub open spec fn broadcast_steps(o: OutputConfig) -> Seq<Step> {
    seq![Step::CreateDir, Step::WriteColorsJson, Step::WriteKittyConf]
        + (if o.kitty { seq![Step::ReloadKitty] } else { seq![] })
        + (if o.hyprland { seq![Step::WriteHyprlandConf, Step::ReloadHyprland] } else { seq![] })
        + (if o.nvim { seq![Step::WriteNvimTheme, Step::NotifyNvim] } else { seq![] })
        + (if o.cava { seq![Step::PatchCavaConfig, Step::ReloadCava] } else { seq![] })
        + (if o.quickshell { seq![Step::WriteQuickshell] } else { seq![] })
}

/// The steps that render the user templates, when there are any.
pub open spec fn template_steps(has_templates: bool) -> Seq<Step> {
    if has_templates {
        seq![Step::RenderTemplates]
    } else {
        seq![]
    }
}

/// The steps of a retheme.
pub open spec fn apply_steps(o: OutputConfig, has_templates: bool, set_wallpaper: bool) -> Seq<
    Step,
> {
    (if set_wallpaper { seq![Step::SetWallpaper] } else { seq![] }) + seq![
        Step::ExtractSource,
        Step::BuildColors,
    ] + broadcast_steps(o) + template_steps(has_templates)
}

/// The steps of a side-effect-free palette export into a directory: user
/// templates, which write outside it, are rendered only by a retheme.
pub open spec fn generate_steps() -> Seq<Step> {
    seq![
        Step::ExtractSource,
        Step::BuildColors,
        Step::CreateDir,
        Step::WriteColorsJson,
        Step::WriteKittyConf,
        Step::WriteHyprlandConf,
        Step::WriteNvimTheme,
        Step::WriteQuickshellFile,
        Step::WriteCavaGradient,
    ]
}

/// What the caller does next.
#[derive(Clone, Copy, Debug, PartialEq, Eq, Structural)]
pub enum Action {
    /// Carry out this step, then report how it went.
    Run(Step),
    /// Every step ran; the retheme succeeded.
    Finish,
    /// A fatal step failed; the retheme fails with its error.
    Abort,
}

/// How the step the caller was told to run went.
#[derive(Clone, Copy, Debug, PartialEq, Eq, Structural)]
pub enum Outcome {
    Done,
    Failed,
}

/// A retheme in progress: its steps, how many have run, and whether a fatal
/// one failed.
pub struct Pipeline {
    steps: Vec<Step>,
    next: usize,
    aborted: bool,
}

impl Pipeline {
    pub closed spec fn steps(&self) -> Seq<Step> {
        self.steps@
    }

    pub closed spec fn position(&self) -> int {
        self.next as int
    }

    pub closed spec fn is_aborted(&self) -> bool {
        self.aborted
    }

    /// The action a pipeline in this state asks for.
    pub open spec fn action_of(&self) -> Action {
        if self.is_aborted() {
            Action::Abort
        } else if self.position() < self.steps().len() {
            Action::Run(self.steps()[self.position()])
        } else {
            Action::Finish
        }
    }

    /// No more steps have run than there are.
    #[verifier::type_invariant]
    closed spec fn wf(&self) -> bool {
        self.next <= self.steps@.len()
    }

    pub(crate) fn start(steps: Vec<Step>) -> (p: Pipeline)
        ensures
            p.steps() == steps@,
            p.position() == 0,
            !p.is_aborted(),
    {
        Pipeline { steps, next: 0, aborted: false }
    }

    /// What to do next.
    pub fn action(&self) -> (a: Action)
        ensures
            a == self.action_of(),
    {
        proof {
            use_type_invariant(self);
        }
        if self.aborted {
            Action::Abort
        } else if self.next < self.steps.len() {
            Action::Run(self.steps[self.next])
        } else {
            Action::Finish
        }
    }

    /// Records how the step that `action` asked for went: the pipeline moves
    /// on, and aborts when that step failed and is fatal.
    pub fn record(&mut self, outcome: Outcome)
        requires
            old(self).action_of() is Run,
        ensures
            final(self).steps() == old(self).steps(),
            final(self).position() == old(self).position() + 1,
            final(self).is_aborted() == (outcome == Outcome::Failed && fatal(
                old(self).steps()[old(self).position()],
            )),
    {
        proof {
            use_type_invariant(&*self);
        }
        let n = self.steps.len();
        assert(self.next < n);
        let step = self.steps[self.next];
        if outcome == Outcome::Failed && is_fatal(step) {
            self.aborted = true;
        }
        self.next = self.next + 1;
    }
}

fn push_all(v: &mut Vec<Step>, steps: &[Step])
    ensures
        final(v)@ == old(v)@ + steps@,
{
    let n = steps.len();
    for i in 0..n
        invariant
            n == steps@.len(),
            v@ == old(v)@ + steps@.take(i as int),
    {
        v.push(steps[i]);
        assert(steps@.take(i + 1) == steps@.take(i as int).push(steps@[i as int]));
    }
    assert(steps@.take(n as int) == steps@);
}

/// The steps that write and push the palette to the enabled outputs.
pub(crate) fn broadcast_plan(outputs: &OutputConfig) -> (v: Vec<Step>)
    ensures
        v@ == broadcast_steps(*outputs),
{
    let mut v: Vec<Step> = Vec::new();
    push_all(&mut v, &[Step::CreateDir, Step::WriteColorsJson, Step::WriteKittyConf]);
    let ghost v0 = v@;
    if outputs.kitty {
        v.push(Step::ReloadKitty);
    }
    let ghost v1 = v@;
    assert(v1 == v0 + (if outputs.kitty { seq![Step::ReloadKitty] } else { seq![] }));
    if outputs.hyprland {
        push_all(&mut v, &[Step::WriteHyprlandConf, Step::ReloadHyprland]);
    }
    let ghost v2 = v@;
    assert(v2 == v1 + (if outputs.hyprland {
        seq![Step::WriteHyprlandConf, Step::ReloadHyprland]
    } else {
        seq![]
    }));
    if outputs.nvim {
        push_all(&mut v, &[Step::WriteNvimTheme, Step::NotifyNvim]);
    }
    let ghost v3 = v@;
    assert(v3 == v2 + (if outputs.nvim {
        seq![Step::WriteNvimTheme, Step::NotifyNvim]
    } else {
        seq![]
    }));
    if outputs.cava {
        push_all(&mut v, &[Step::PatchCavaConfig, Step::ReloadCava]);
    }
    let ghost v4 = v@;
    assert(v4 == v3 + (if outputs.cava {
        seq![Step::PatchCavaConfig, Step::ReloadCava]
    } else {
        seq![]
    }));
    if outputs.quickshell {
        v.push(Step::WriteQuickshell);
    }
    assert(v@ == v4 + (if outputs.quickshell { seq![Step::WriteQuickshell] } else { seq![] }));
    v
}

/// A retheme that optionally skips setting the wallpaper (for callers that
/// already displayed the image): extract the source color, build the
/// palette, write every enabled output, render the templates.
pub fn apply_with(outputs: &OutputConfig, has_templates: bool, set_wallpaper: bool) -> (p: Pipeline)
    ensures
        p.steps() == apply_steps(*outputs, has_templates, set_wallpaper),
        p.position() == 0,
        !p.is_aborted(),
{
    let mut v: Vec<Step> = Vec::new();
    if set_wallpaper {
        v.push(Step::SetWallpaper);
    }
    let ghost v0 = v@;
    assert(v0 == (if set_wallpaper { seq![Step::SetWallpaper] } else { seq![] }));
    push_all(&mut v, &[Step::ExtractSource, Step::BuildColors]);
    let b = broadcast_plan(outputs);
    push_all(&mut v, b.as_slice());
    let ghost v1 = v@;
    if has_templates {
        v.push(Step::RenderTemplates);
    }
    assert(v@ == v1 + template_steps(has_templates));
    Pipeline::start(v)
}

/// The full retheme: set the wallpaper, extract the source color, build the
/// palette, write every enabled output, render the templates.
pub fn apply(outputs: &OutputConfig, has_templates: bool) -> (p: Pipeline)
    ensures
        p.steps() == apply_steps(*outputs, has_templates, true),
        p.position() == 0,
        !p.is_aborted(),
{
    apply_with(outputs, has_templates, true)
}

/// Extract a palette and write every artifact into an output directory,
/// with no side effects outside it: no desktop reloads, no `/tmp`, no user
/// templates.
pub fn generate() -> (p: Pipeline)
    ensures
        p.steps() == generate_steps(),
        p.position() == 0,
        !p.is_aborted(),
{
    let mut v: Vec<Step> = Vec::new();
    push_all(
        &mut v,
        &[
            Step::ExtractSource,
            Step::BuildColors,
            Step::CreateDir,
            Step::WriteColorsJson,
            Step::WriteKittyConf,
            Step::WriteHyprlandConf,
            Step::WriteNvimTheme,
            Step::WriteQuickshellFile,
            Step::WriteCavaGradient,
        ],
    );
    assert(v@ =~= generate_steps());
    Pipeline::start(v)
}

/// The image path in one line of `awww query` output: the text after the
/// first `image: ` (up to a second one, if any), trimmed, with trailing
/// commas dropped, trimmed again.
pub open spec fn image_in_line(line: Seq<char>) -> Option<Seq<char>> {
    match find_first(line, "image: "@) {
        Some(p) => {
            let after = line.subrange(p + "image: "@.len(), line.len() as int);
            let seg = match find_first(after, "image: "@) {
                Some(q) => after.subrange(0, q),
                None => after,
            };
            Some(trim(trim_end_char(trim(seg), ',')))
        },
        None => None,
    }
}

/// The image path of the first line of `t` that names one.
pub open spec fn query_image(t: Seq<char>) -> Option<Seq<char>>
    decreases t.len(),
{
    match find_first(t, "\n"@) {
        Some(k) => {
            proof {
                lemma_find_from(t, "\n"@, 0);
            }
            if image_in_line(t.subrange(0, k)) is Some {
                image_in_line(t.subrange(0, k))
            } else if k < t.len() {
                query_image(t.subrange(k + 1, t.len() as int))
            } else {
                None
            }
        },
        None => image_in_line(t),
    }
}

fn image_in_line_chars(line: &Vec<char>) -> (r: Option<String>)
    ensures
        r matches Some(s) ==> image_in_line(line@) == Some(s@),
        r is None ==> image_in_line(line@) is None,
{
    let pat = chars_of("image: ");
    proof {
        lemma_find_from(line@, pat@, 0);
    }
    match find_chars(line, &pat) {
        None => None,
        Some(p) => {
            assert(occurs_at(line@, pat@, p as int));
            let len = line.len();
            let after = sub_vec(line, p + pat.len(), len);
            proof {
                lemma_find_from(after@, pat@, 0);
            }
            let seg_end = match find_chars(&after, &pat) {
                Some(q) => q,
                None => after.len(),
            };
            assert(after@.subrange(0, after@.len() as int) == after@);
            let (lo, hi) = trim_bounds(&after, 0, seg_end);
            let mut hi2 = hi;
            while hi2 > lo && after[hi2 - 1] == ','
                invariant
                    lo <= hi2 <= hi <= after.len(),
                    forall|i: int| hi2 <= i < hi ==> #[trigger] after@[i] == ',',
                decreases hi2 - lo,
            {
                hi2 = hi2 - 1;
            }
            proof {
                let t = after@.subrange(lo as int, hi as int);
                assert forall|i: int| hi2 - lo <= i < t.len() implies #[trigger] t[i] == ',' by {
                    assert(t[i] == after@[lo + i]);
                }
                if hi2 > lo {
                    assert(t[hi2 - lo - 1] == after@[hi2 - 1]);
                }
                lemma_trim_end_char_at(t, ',', hi2 - lo);
                assert(t.subrange(0, hi2 - lo) == after@.subrange(lo as int, hi2 as int));
            }
            let (lo2, hi3) = trim_bounds(&after, lo, hi2);
            Some(string_of_range(&after, lo2, hi3))
        },
    }
}

/// The image `awww query` reports as displayed: the path after `image: ` on
/// the first line that has one.
pub fn wallpaper_from_query(text: &str) -> (r: Option<String>)
    ensures
        r matches Some(s) ==> query_image(text@) == Some(s@),
        r is None ==> query_image(text@) is None,
{
    let cs = chars_of(text);
    let nl = chars_of("\n");
    proof {
        reveal_strlit("\n");
    }
    let n = cs.len();
    let mut i: usize = 0;
    assert(cs@.subrange(0, n as int) == cs@);
    while i <= n
        invariant
            n == cs.len(),
            cs@ == text@,
            nl@ == "\n"@,
            nl@.len() == 1,
            i <= n,
            query_image(text@) == query_image(cs@.subrange(i as int, n as int)),
        decreases n - i,
    {
        let rest = sub_vec(&cs, i, n);
        proof {
            lemma_find_from(rest@, nl@, 0);
        }
        assert(query_image(rest@) == query_image(cs@.subrange(i as int, n as int)));
        match find_chars(&rest, &nl) {
            Some(k) => {
                assert(occurs_at(rest@, nl@, k as int));
                let line = sub_vec(&rest, 0, k);
                let found = image_in_line_chars(&line);
                if found.is_some() {
                    assert(query_image(rest@) == image_in_line(line@));
                    return found;
                }
                assert(rest@.subrange(k + 1, rest@.len() as int) == cs@.subrange(
                    i + k + 1,
                    n as int,
                ));
                i = i + k + 1;
            },
            None => {
                assert(rest@.subrange(0, rest@.len() as int) == rest@);
                return image_in_line_chars(&rest);
            },
        }
    }
    None
}

/// A line holding `image: ` once, followed by a path with no white space or
/// comma at either end, names that path whole, spaces inside it included,
/// whatever stands before `image: `.
pub proof fn law_query_path_kept_whole(pre: Seq<char>, path: Seq<char>)
    requires
        forall|j: int| 0 <= j && j + 7 <= pre.len() ==> #[trigger] pre.subrange(j, j + 7) != "image: "@,
        forall|j: int| 0 <= j && j + 7 <= path.len() ==> #[trigger] path.subrange(j, j + 7) != "image: "@,
        path.len() > 0 ==> !is_white_space(path[0]) && !is_white_space(path.last())
            && path.last() != ',',
    ensures
        image_in_line(pre + "image: "@ + path) == Some(path),
{
    reveal_strlit("image: ");
    let pat = "image: "@;
    let line = pre + pat + path;
    let k = pre.len() as int;
    assert(line.subrange(k, k + 7) =~= pat);
    assert(occurs_at(line, pat, k));
    assert forall|j: int| 0 <= j < k implies !#[trigger] occurs_at(line, pat, j) by {
        if j + 7 <= k {
            assert(line.subrange(j, j + 7) =~= pre.subrange(j, j + 7));
        } else {
            assert(line[k] == 'i');
            lemma_not_occurs_at(line, pat, j, k);
        }
    }
    lemma_find_first_is(line, pat, k);
    let after = line.subrange(k + 7, line.len() as int);
    assert(after =~= path);
    lemma_find_from(path, pat, 0);
    assert(find_first(path, pat) is None) by {
        if let Some(q) = find_first(path, pat) {
            assert(occurs_at(path, pat, q));
        }
    }
    let n = path.len() as int;
    assert(path.subrange(0, n) =~= path);
    assert(path.subrange(0, n) == path);
    lemma_trim_start_at(path, 0);
    lemma_trim_end_at(path, n);
    assert(trim(path) == path);
    lemma_trim_end_char_at(path, ',', n);
    assert(trim_end_char(path, ',') == path);
}

/// In `awww query` output, the first line that names an image gives the
/// path: a first line made of any text without `image: `, then `image: `
/// and a path as in `law_query_path_kept_whole`, names that path whole, both
/// when further lines follow and when it is the only line.
pub proof fn law_query_first_image_line(pre: Seq<char>, path: Seq<char>, rest: Seq<char>)
    requires
        forall|j: int| 0 <= j && j + 7 <= pre.len() ==> #[trigger] pre.subrange(j, j + 7) != "image: "@,
        forall|j: int| 0 <= j && j + 7 <= path.len() ==> #[trigger] path.subrange(j, j + 7) != "image: "@,
        path.len() > 0 ==> !is_white_space(path[0]) && !is_white_space(path.last())
            && path.last() != ',',
        forall|i: int| 0 <= i < pre.len() ==> #[trigger] pre[i] != '\n',
        forall|i: int| 0 <= i < path.len() ==> #[trigger] path[i] != '\n',
    ensures
        query_image(pre + "image: "@ + path + "\n"@ + rest) == Some(path),
        query_image(pre + "image: "@ + path) == Some(path),
{
    reveal_strlit("image: ");
    reveal_strlit("\n");
    law_query_path_kept_whole(pre, path);
    let nl = "\n"@;
    let line = pre + "image: "@ + path;
    assert forall|i: int| 0 <= i < line.len() implies #[trigger] line[i] != '\n' by {
        if i < pre.len() {
            assert(line[i] == pre[i]);
        } else if i >= pre.len() + 7 {
            assert(line[i] == path[i - pre.len() - 7]);
        }
    }
    let t = line + nl + rest;
    let k = line.len() as int;
    assert(t.subrange(k, k + 1) =~= nl);
    assert forall|j: int| 0 <= j < k implies !#[trigger] occurs_at(t, nl, j) by {
        assert(t[j] == line[j]);
        lemma_not_occurs_at(t, nl, j, j);
    }
    lemma_find_first_is(t, nl, k);
    assert(t.subrange(0, k) =~= line);
    lemma_find_from(line, nl, 0);
    assert(find_first(line, nl) is None) by {
        if let Some(q) = find_first(line, nl) {
            assert(occurs_at(line, nl, q));
            assert(line.subrange(q, q + 1)[0] == line[q]);
        }
    }
}

/// `p` with a leading `~/` replaced by `home/`.
pub open spec fn home_expanded(p: Seq<char>, home: Seq<char>) -> Seq<char> {
    if p.len() >= 2 && p[0] == '~' && p[1] == '/' {
        home + "/"@ + p.subrange(2, p.len() as int)
    } else {
        p
    }
}

/// Expands a leading `~/` in a template path to the home directory.
pub fn expand_home(p: &str, home: &str) -> (r: String)
    ensures
        r@ == home_expanded(p@, home@),
{
    let cs = chars_of(p);
    if cs.len() >= 2 && cs[0] == '~' && cs[1] == '/' {
        let mut r = String::from_str(home);
        r.append("/");
        r.append(string_of_range(&cs, 2, cs.len()).as_str());
        r
    } else {
        String::from_str(p)
    }
}

/// An export into a directory leaves the desktop alone and writes nothing
/// outside the directory: no wallpaper, no live reloads, no patching of the
/// user's cava config, nothing in `/tmp`, no user templates.
pub proof fn law_generate_touches_no_desktop()
    ensures
        forall|i: int|
            0 <= i < generate_steps().len() ==> !touches_desktop(#[trigger] generate_steps()[i]),
        !generate_steps().contains(Step::RenderTemplates),
{
    if generate_steps().contains(Step::RenderTemplates) {
        let i = choose|i: int| 0 <= i < generate_steps().len() && generate_steps()[i] == Step::RenderTemplates;
        assert(touches_desktop(generate_steps()[i]));
    }
}

/// Skipping the wallpaper only drops the `awww` call: the rest of the
/// retheme is the same.
pub proof fn law_no_wallpaper_only_skips_awww(o: OutputConfig, has_templates: bool)
    ensures
        apply_steps(o, has_templates, true) == seq![Step::SetWallpaper] + apply_steps(
            o,
            has_templates,
            false,
        ),
        forall|i: int|
            0 <= i < apply_steps(o, has_templates, false).len() ==> #[trigger] apply_steps(
                o,
                has_templates,
                false,
            )[i] != Step::SetWallpaper,
{
    let rest = seq![Step::ExtractSource, Step::BuildColors] + broadcast_steps(o) + template_steps(
        has_templates,
    );
    assert(apply_steps(o, has_templates, false) =~= rest);
    assert(apply_steps(o, has_templates, true) =~= seq![Step::SetWallpaper] + rest);
}

proof fn lemma_contains_add(a: Seq<Step>, b: Seq<Step>, x: Step)
    ensures
        (a + b).contains(x) == (a.contains(x) || b.contains(x)),
{
    if (a + b).contains(x) {
        let i = choose|i: int| 0 <= i < (a + b).len() && (a + b)[i] == x;
        if i < a.len() {
            assert(a[i] == x);
        } else {
            assert(b[i - a.len()] == x);
        }
    }
    if a.contains(x) {
        let i = choose|i: int| 0 <= i < a.len() && a[i] == x;
        assert((a + b)[i] == x);
    }
    if b.contains(x) {
        let i = choose|i: int| 0 <= i < b.len() && b[i] == x;
        assert((a + b)[a.len() + i] == x);
    }
}

proof fn lemma_contains_one(a: Step, x: Step)
    ensures
        seq![a].contains(x) == (x == a),
{
    if x == a {
        assert(seq![a][0] == x);
    }
}

proof fn lemma_contains_two(a: Step, b: Step, x: Step)
    ensures
        seq![a, b].contains(x) == (x == a || x == b),
{
    assert(seq![a, b] == seq![a] + seq![b]);
    lemma_contains_add(seq![a], seq![b], x);
    lemma_contains_one(a, x);
    lemma_contains_one(b, x);
}

proof fn lemma_contains_three(a: Step, b: Step, c: Step, x: Step)
    ensures
        seq![a, b, c].contains(x) == (x == a || x == b || x == c),
{
    assert(seq![a, b, c] == seq![a, b] + seq![c]);
    lemma_contains_add(seq![a, b], seq![c], x);
    lemma_contains_two(a, b, x);
    lemma_contains_one(c, x);
}

proof fn lemma_optional_contains(on: bool, part: Seq<Step>, x: Step)
    ensures
        (if on {
            part
        } else {
            Seq::<Step>::empty()
        }).contains(x) == (on && part.contains(x)),
{
}

proof fn lemma_broadcast_contains(o: OutputConfig, x: Step)
    ensures
        broadcast_steps(o).contains(x) == (x == Step::CreateDir || x == Step::WriteColorsJson || x
            == Step::WriteKittyConf || (o.kitty && x == Step::ReloadKitty) || (o.hyprland && (x
            == Step::WriteHyprlandConf || x == Step::ReloadHyprland)) || (o.nvim && (x
            == Step::WriteNvimTheme || x == Step::NotifyNvim)) || (o.cava && (x
            == Step::PatchCavaConfig || x == Step::ReloadCava)) || (o.quickshell && x
            == Step::WriteQuickshell)),
{
    let base = seq![Step::CreateDir, Step::WriteColorsJson, Step::WriteKittyConf];
    let k = if o.kitty { seq![Step::ReloadKitty] } else { seq![] };
    let h = if o.hyprland {
        seq![Step::WriteHyprlandConf, Step::ReloadHyprland]
    } else {
        seq![]
    };
    let n = if o.nvim { seq![Step::WriteNvimTheme, Step::NotifyNvim] } else { seq![] };
    let c = if o.cava { seq![Step::PatchCavaConfig, Step::ReloadCava] } else { seq![] };
    let q = if o.quickshell { seq![Step::WriteQuickshell] } else { seq![] };
    lemma_optional_contains(o.kitty, seq![Step::ReloadKitty], x);
    lemma_optional_contains(o.hyprland, seq![Step::WriteHyprlandConf, Step::ReloadHyprland], x);
    lemma_optional_contains(o.nvim, seq![Step::WriteNvimTheme, Step::NotifyNvim], x);
    lemma_optional_contains(o.cava, seq![Step::PatchCavaConfig, Step::ReloadCava], x);
    lemma_optional_contains(o.quickshell, seq![Step::WriteQuickshell], x);
    lemma_contains_three(Step::CreateDir, Step::WriteColorsJson, Step::WriteKittyConf, x);
    lemma_contains_one(Step::ReloadKitty, x);
    lemma_contains_two(Step::WriteHyprlandConf, Step::ReloadHyprland, x);
    lemma_contains_two(Step::WriteNvimTheme, Step::NotifyNvim, x);
    lemma_contains_two(Step::PatchCavaConfig, Step::ReloadCava, x);
    lemma_contains_one(Step::WriteQuickshell, x);
    lemma_contains_add(base, k, x);
    lemma_contains_add(base + k, h, x);
    lemma_contains_add(base + k + h, n, x);
    lemma_contains_add(base + k + h + n, c, x);
    lemma_contains_add(base + k + h + n + c, q, x);
}

/// Exactly which steps a retheme runs: the wallpaper when asked for, the
/// extraction and palette, the files every retheme writes, each output's
/// steps when its switch is on, the templates when there are any.
pub proof fn law_apply_steps_exactly(o: OutputConfig, has_templates: bool, set_wallpaper: bool, x: Step)
    ensures
        apply_steps(o, has_templates, set_wallpaper).contains(x) == (
        (set_wallpaper && x == Step::SetWallpaper) || x == Step::ExtractSource || x
            == Step::BuildColors || broadcast_steps(o).contains(x) || (has_templates && x
            == Step::RenderTemplates)),
        broadcast_steps(o).contains(x) == (x == Step::CreateDir || x == Step::WriteColorsJson || x
            == Step::WriteKittyConf || (o.kitty && x == Step::ReloadKitty) || (o.hyprland && (x
            == Step::WriteHyprlandConf || x == Step::ReloadHyprland)) || (o.nvim && (x
            == Step::WriteNvimTheme || x == Step::NotifyNvim)) || (o.cava && (x
            == Step::PatchCavaConfig || x == Step::ReloadCava)) || (o.quickshell && x
            == Step::WriteQuickshell)),
{
    lemma_broadcast_contains(o, x);
    let w = if set_wallpaper { seq![Step::SetWallpaper] } else { seq![] };
    let head = seq![Step::ExtractSource, Step::BuildColors];
    let t = template_steps(has_templates);
    lemma_optional_contains(set_wallpaper, seq![Step::SetWallpaper], x);
    lemma_optional_contains(has_templates, seq![Step::RenderTemplates], x);
    lemma_contains_one(Step::SetWallpaper, x);
    lemma_contains_one(Step::RenderTemplates, x);
    lemma_contains_two(Step::ExtractSource, Step::BuildColors, x);
    lemma_contains_add(w, head, x);
    lemma_contains_add(w + head, broadcast_steps(o), x);
    lemma_contains_add(w + head + broadcast_steps(o), t, x);
}

/// A failure of the wallpaper call, of a live reload or of a template never
/// stops a retheme; a failure to extract the color or to write a file does.
pub proof fn law_only_file_and_extraction_failures_abort(x: Step)
    ensures
        fatal(x) == (x == Step::ExtractSource || x == Step::CreateDir || x == Step::WriteColorsJson
            || x == Step::WriteKittyConf || x == Step::WriteHyprlandConf || x
            == Step::WriteNvimTheme || x == Step::PatchCavaConfig || x == Step::WriteQuickshell
            || x == Step::WriteQuickshellFile || x == Step::WriteCavaGradient),
{
}

} // verus!

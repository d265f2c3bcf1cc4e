//! The theme in force: its palette, its fonts, and the style of each syntax token.

use vstd::prelude::*;

use crate::color;
use crate::color::{color_text_is_ok, parse_color_rgb};
use crate::text;
use crate::text::{begins_with, chars_of, copy_opt, same, split_chars};

verus! {

pub const DEFAULT_BG: u32 = 0x1C1C1E;

pub const DEFAULT_BORDER: u32 = 0x2F2F31;

pub const DEFAULT_SELECTED_ROW: u32 = 0x2C3F59;

pub const DEFAULT_HOVER_ROW: u32 = 0x2A2A2C;

pub const DEFAULT_TEXT_PRIMARY: u32 = 0xFFFFFF;

pub const DEFAULT_TEXT_SECONDARY: u32 = 0x8E8E93;

pub const DEFAULT_TEXT_DIM: u32 = 0x6C6C70;

pub const DEFAULT_STATUS_BAR_BG: u32 = 0x18181A;

pub const DEFAULT_MATCH_HIGHLIGHT: u32 = 0x4A9EFF;

pub const DEFAULT_PREVIEW_BG: u32 = 0x161618;

pub const DEFAULT_UI_FONT_FAMILY: &'static str = ".ZedSans";

pub const DEFAULT_BUFFER_FONT_FAMILY: &'static str = ".ZedMono";

/// Weights from here on are drawn bold.
pub const BOLD_WEIGHT: u32 = 600;

/// The colours of the window, each as `0xRRGGBB`.
#[derive(Debug, Clone, Copy, PartialEq, Eq, Structural)]
pub struct Palette {
    pub bg: u32,
    pub border: u32,
    pub selected_row: u32,
    pub hover_row: u32,
    pub text_primary: u32,
    pub text_secondary: u32,
    pub text_dim: u32,
    pub status_bar_bg: u32,
    pub match_highlight: u32,
    pub preview_bg: u32,
}

/// The built-in palette.
pub open spec fn default_palette() -> Palette {
    Palette {
        bg: DEFAULT_BG,
        border: DEFAULT_BORDER,
        selected_row: DEFAULT_SELECTED_ROW,
        hover_row: DEFAULT_HOVER_ROW,
        text_primary: DEFAULT_TEXT_PRIMARY,
        text_secondary: DEFAULT_TEXT_SECONDARY,
        text_dim: DEFAULT_TEXT_DIM,
        status_bar_bg: DEFAULT_STATUS_BAR_BG,
        match_highlight: DEFAULT_MATCH_HIGHLIGHT,
        preview_bg: DEFAULT_PREVIEW_BG,
    }
}

impl Default for Palette {
    fn default() -> (r: Self)
        ensures
            r == default_palette(),
    {
        Palette {
            bg: DEFAULT_BG,
            border: DEFAULT_BORDER,
            selected_row: DEFAULT_SELECTED_ROW,
            hover_row: DEFAULT_HOVER_ROW,
            text_primary: DEFAULT_TEXT_PRIMARY,
            text_secondary: DEFAULT_TEXT_SECONDARY,
            text_dim: DEFAULT_TEXT_DIM,
            status_bar_bg: DEFAULT_STATUS_BAR_BG,
            match_highlight: DEFAULT_MATCH_HIGHLIGHT,
            preview_bg: DEFAULT_PREVIEW_BG,
        }
    }
}

/// How a piece of text is drawn.
#[derive(Debug, Clone, Copy, PartialEq, Eq, Structural)]
pub struct SyntaxRenderStyle {
    pub color: u32,
    pub italic: bool,
    pub bold: bool,
    pub underline: bool,
    pub strikethrough: bool,
}

/// Plain text in a colour.
pub open spec fn plain_style(color: u32) -> SyntaxRenderStyle {
    SyntaxRenderStyle { color, italic: false, bold: false, underline: false, strikethrough: false }
}

impl Default for SyntaxRenderStyle {
    fn default() -> (r: Self)
        ensures
            r == plain_style(0),
    {
        SyntaxRenderStyle {
            color: 0,
            italic: false,
            bold: false,
            underline: false,
            strikethrough: false,
        }
    }
}

/// The style that a theme gives to a syntax token. The weight is a whole number; a fraction of it
/// is cut off.
#[derive(Debug)]
pub struct SyntaxStyle {
    pub color: Option<String>,
    pub background_color: Option<String>,
    pub font_style: Option<String>,
    pub font_weight: Option<u32>,
}

pub struct SyntaxStyleModel {
    pub color: Option<Seq<char>>,
    pub background_color: Option<Seq<char>>,
    pub font_style: Option<Seq<char>>,
    pub font_weight: Option<u32>,
}

impl View for SyntaxStyle {
    type V = SyntaxStyleModel;

    open spec fn view(&self) -> SyntaxStyleModel {
        SyntaxStyleModel {
            color: text::opt_text(self.color),
            background_color: text::opt_text(self.background_color),
            font_style: text::opt_text(self.font_style),
            font_weight: self.font_weight,
        }
    }
}

/// A style that says nothing.
pub open spec fn empty_style() -> SyntaxStyleModel {
    SyntaxStyleModel { color: None, background_color: None, font_style: None, font_weight: None }
}

impl Default for SyntaxStyle {
    fn default() -> (r: Self)
        ensures
            r@ == empty_style(),
    {
        SyntaxStyle { color: None, background_color: None, font_style: None, font_weight: None }
    }
}

impl Clone for SyntaxStyle {
    fn clone(&self) -> (r: Self)
        ensures
            r@ == self@,
    {
        SyntaxStyle {
            color: copy_opt(&self.color),
            background_color: copy_opt(&self.background_color),
            font_style: copy_opt(&self.font_style),
            font_weight: self.font_weight,
        }
    }
}

/// The styles of a theme, each with the name of its token, in the theme's order.
pub open spec fn styles_view(v: Seq<(String, SyntaxStyle)>) -> Seq<(Seq<char>, SyntaxStyleModel)> {
    v.map_values(|p: (String, SyntaxStyle)| (p.0@, p.1@))
}

pub fn copy_styles(v: &Vec<(String, SyntaxStyle)>) -> (r: Vec<(String, SyntaxStyle)>)
    ensures
        styles_view(r@) == styles_view(v@),
{
    let mut r: Vec<(String, SyntaxStyle)> = Vec::new();
    let mut i: usize = 0;
    while i < v.len()
        invariant
            i <= v.len(),
            styles_view(r@) == styles_view(v@).take(i as int),
        decreases v.len() - i,
    {
        let ghost before = styles_view(r@);
        let name = v[i].0.clone();
        let style = v[i].1.clone();
        r.push((name, style));
        i += 1;
        assert(styles_view(r@) =~= before.push((name@, style@)));
        assert(styles_view(r@) =~= styles_view(v@).take(i as int));
    }
    assert(styles_view(v@).take(v@.len() as int) =~= styles_view(v@));
    r
}

/// The dotted parts of a token or capture name.
pub open spec fn name_parts(name: Seq<char>) -> Seq<Seq<char>> {
    text::split(name, '.', '.')
}

/// A token matches a capture that has all of the token's parts, in any order.
pub open spec fn token_matches(token: Seq<char>, capture: Seq<char>) -> bool {
    forall|i: int|
        0 <= i < name_parts(token).len() ==> name_parts(capture).contains(
            #[trigger] name_parts(token)[i],
        )
}

/// The index of the style for a capture: the one with the most parts, and among those the last.
pub open spec fn best_match(
    styles: Seq<(Seq<char>, SyntaxStyleModel)>,
    capture: Seq<char>,
) -> Option<int>
    decreases styles.len(),
{
    if styles.len() == 0 {
        None
    } else {
        let earlier = best_match(styles.drop_last(), capture);
        let token = styles.last().0;
        let wins = match earlier {
            Some(i) => name_parts(styles[i].0).len() <= name_parts(token).len(),
            None => true,
        };
        if token_matches(token, capture) && wins {
            Some(styles.len() - 1)
        } else {
            earlier
        }
    }
}

/// The style for a capture, or the empty one.
pub open spec fn style_for(
    styles: Seq<(Seq<char>, SyntaxStyleModel)>,
    capture: Seq<char>,
) -> SyntaxStyleModel {
    match best_match(styles, capture) {
        Some(i) => styles[i].1,
        None => empty_style(),
    }
}

/// The best match is a match; no other match has more parts, and none as many comes later.
pub proof fn law_best_match(styles: Seq<(Seq<char>, SyntaxStyleModel)>, capture: Seq<char>)
    ensures
        best_match(styles, capture) matches Some(i) ==> {
            &&& 0 <= i < styles.len()
            &&& token_matches(styles[i].0, capture)
            &&& forall|j: int|
                0 <= j < styles.len() && token_matches(#[trigger] styles[j].0, capture) ==> {
                    ||| name_parts(styles[j].0).len() < name_parts(styles[i].0).len()
                    ||| name_parts(styles[j].0).len() == name_parts(styles[i].0).len() && j <= i
                }
        },
        best_match(styles, capture) is None ==> forall|j: int|
            0 <= j < styles.len() ==> !token_matches(#[trigger] styles[j].0, capture),
    decreases styles.len(),
{
    if styles.len() > 0 {
        let front = styles.drop_last();
        law_best_match(front, capture);
        assert forall|j: int| 0 <= j < front.len() implies #[trigger] styles[j] == front[j] by {}
    }
}

/// A style whose colour text, if it has one, can be read.
pub open spec fn style_ok(style: SyntaxStyleModel) -> bool {
    style.color matches Some(t) ==> color::color_text_ok(t)
}

pub open spec fn style_color(style: SyntaxStyleModel) -> Option<u32> {
    match style.color {
        Some(t) => color::color_value(t),
        None => None,
    }
}

pub open spec fn or_color(color: Option<u32>, fallback: u32) -> u32 {
    match color {
        Some(c) => c,
        None => fallback,
    }
}

/// Punctuation and operators have the colour of plain text.
pub open spec fn is_punctuation(capture: Seq<char>) -> bool {
    capture == "punctuation"@ || capture == "operator"@ || "punctuation."@.is_prefix_of(capture)
}

/// Constants, constructors and types have the style of variables.
pub open spec fn uses_variable_color(capture: Seq<char>) -> bool {
    ||| capture == "constant"@
    ||| capture == "constructor"@
    ||| capture == "type"@
    ||| "constant."@.is_prefix_of(capture)
    ||| "constructor."@.is_prefix_of(capture)
}

/// The token name under which the style of a capture is looked up.
pub open spec fn resolved_capture(capture: Seq<char>) -> Seq<char> {
    if uses_variable_color(capture) {
        "variable"@
    } else {
        capture
    }
}

/// Finds out whether a token matches a capture, and sets `specificity` to the number of its parts.
pub fn syntax_token_matches_capture(
    token: &str,
    capture_name: &str,
    specificity: &mut usize,
) -> (r: bool)
    ensures
        r == token_matches(token@, capture_name@),
        r ==> *final(specificity) == name_parts(token@).len(),
        !r ==> *final(specificity) == *old(specificity),
{
    let capture_parts = split_chars(&chars_of(capture_name), '.', '.');
    let token_parts = split_chars(&chars_of(token), '.', '.');
    let ghost have = name_parts(capture_name@);
    let ghost want = name_parts(token@);
    let mut i: usize = 0;
    while i < token_parts.len()
        invariant
            i <= token_parts.len(),
            text::texts(capture_parts@) == have,
            text::texts(token_parts@) == want,
            have == name_parts(capture_name@),
            want == name_parts(token@),
            forall|k: int| 0 <= k < i ==> have.contains(#[trigger] want[k]),
            *specificity == *old(specificity),
        decreases token_parts.len() - i,
    {
        let mut found = false;
        let mut j: usize = 0;
        assert(want[i as int] == token_parts@[i as int]@);
        while j < capture_parts.len() && !found
            invariant
                j <= capture_parts.len(),
                i < token_parts.len(),
                text::texts(capture_parts@) == have,
                want[i as int] == token_parts@[i as int]@,
                found ==> have.contains(want[i as int]),
                !found ==> forall|k: int| 0 <= k < j ==> #[trigger] have[k] != want[i as int],
            decreases capture_parts.len() - j, (if found { 0int } else { 1int }),
        {
            assert(have[j as int] == capture_parts@[j as int]@);
            if same(capture_parts[j].as_str(), token_parts[i].as_str()) {
                found = true;
            }
            j += 1;
        }
        if !found {
            assert(!have.contains(want[i as int]));
            return false;
        }
        i += 1;
    }
    *specificity = token_parts.len();
    true
}

pub fn syntax_capture_is_punctuation(capture_name: &str) -> (r: bool)
    ensures
        r == is_punctuation(capture_name@),
{
    same(capture_name, "punctuation") || same(capture_name, "operator") || begins_with(
        capture_name,
        "punctuation.",
    )
}

pub fn syntax_capture_uses_variable_color(capture_name: &str) -> (r: bool)
    ensures
        r == uses_variable_color(capture_name@),
{
    same(capture_name, "constant") || same(capture_name, "constructor") || same(
        capture_name,
        "type",
    ) || begins_with(capture_name, "constant.") || begins_with(capture_name, "constructor.")
}

/// The index of the style for a capture.
fn best_match_index(styles: &Vec<(String, SyntaxStyle)>, capture_name: &str) -> (r: Option<usize>)
    ensures
        r matches Some(i) ==> best_match(styles_view(styles@), capture_name@) == Some(i as int) && i
            < styles.len(),
        r is None ==> best_match(styles_view(styles@), capture_name@) is None,
{
    let ghost all = styles_view(styles@);
    let mut best: Option<(usize, usize)> = None;
    let mut i: usize = 0;
    while i < styles.len()
        invariant
            i <= styles.len(),
            all == styles_view(styles@),
            best matches Some((n, k)) ==> {
                &&& k < i
                &&& n == name_parts(all[k as int].0).len()
                &&& best_match(all.take(i as int), capture_name@) == Some(k as int)
            },
            best is None ==> best_match(all.take(i as int), capture_name@) is None,
        decreases styles.len() - i,
    {
        let ghost next = all.take(i + 1);
        assert(next.drop_last() =~= all.take(i as int));
        assert(next.last().0 == styles@[i as int].0@);
        let mut specificity: usize = 0;
        if syntax_token_matches_capture(styles[i].0.as_str(), capture_name, &mut specificity) {
            let wins = match best {
                Some((n, _)) => n <= specificity,
                None => true,
            };
            if wins {
                best = Some((specificity, i));
            }
        }
        i += 1;
    }
    assert(all.take(all.len() as int) =~= all);
    match best {
        Some((_, k)) => Some(k),
        None => None,
    }
}

/// Every style that matches a capture can be read.
pub open spec fn matches_ok(
    styles: Seq<(Seq<char>, SyntaxStyleModel)>,
    capture: Seq<char>,
) -> bool {
    forall|i: int|
        0 <= i < styles.len() && token_matches((#[trigger] styles[i]).0, capture) ==> style_ok(
            styles[i].1,
        )
}

pub fn syntax_style_color(style: &SyntaxStyle) -> (r: Option<u32>)
    requires
        style_ok(style@),
    ensures
        r == style_color(style@),
{
    match &style.color {
        Some(t) => parse_color_rgb(t.as_str()),
        None => None,
    }
}

/// The colour for a capture: that of the best matching style, or the default.
pub fn syntax_color_from_styles(
    styles: &Vec<(String, SyntaxStyle)>,
    capture_name: &str,
    default_color: u32,
) -> (r: u32)
    requires
        matches_ok(styles_view(styles@), capture_name@),
    ensures
        r == or_color(
            style_color(style_for(styles_view(styles@), capture_name@)),
            default_color,
        ),
{
    proof {
        law_best_match(styles_view(styles@), capture_name@);
    }
    match best_match_index(styles, capture_name) {
        Some(i) => {
            assert(styles_view(styles@)[i as int].1 == styles@[i as int].1@);
            match syntax_style_color(&styles[i].1) {
                Some(c) => c,
                None => default_color,
            }
        },
        None => default_color,
    }
}

/// The style for a capture, or the empty one.
pub fn syntax_style_for_capture(
    styles: &Vec<(String, SyntaxStyle)>,
    capture_name: &str,
) -> (r: SyntaxStyle)
    ensures
        r@ == style_for(styles_view(styles@), capture_name@),
{
    match best_match_index(styles, capture_name) {
        Some(i) => {
            assert(styles_view(styles@)[i as int].1 == styles@[i as int].1@);
            styles[i].1.clone()
        },
        None => SyntaxStyle::default(),
    }
}

/// A theme with everything looked up. A font size is held as the bits of a single-precision
/// number; without one the window's own size stands.
#[derive(Debug)]
pub struct ResolvedTheme {
    pub palette: Palette,
    pub ui_font_family: String,
    pub buffer_font_family: String,
    pub ui_font_size: Option<u32>,
    pub buffer_font_size: Option<u32>,
    pub syntax_styles: Vec<(String, SyntaxStyle)>,
    pub syntax_default_color: u32,
}

pub struct ThemeModel {
    pub palette: Palette,
    pub ui_font_family: Seq<char>,
    pub buffer_font_family: Seq<char>,
    pub ui_font_size: Option<u32>,
    pub buffer_font_size: Option<u32>,
    pub syntax_styles: Seq<(Seq<char>, SyntaxStyleModel)>,
    pub syntax_default_color: u32,
}

impl View for ResolvedTheme {
    type V = ThemeModel;

    open spec fn view(&self) -> ThemeModel {
        ThemeModel {
            palette: self.palette,
            ui_font_family: self.ui_font_family@,
            buffer_font_family: self.buffer_font_family@,
            ui_font_size: self.ui_font_size,
            buffer_font_size: self.buffer_font_size,
            syntax_styles: styles_view(self.syntax_styles@),
            syntax_default_color: self.syntax_default_color,
        }
    }
}

/// The built-in theme.
pub open spec fn default_theme() -> ThemeModel {
    ThemeModel {
        palette: default_palette(),
        ui_font_family: DEFAULT_UI_FONT_FAMILY@,
        buffer_font_family: DEFAULT_BUFFER_FONT_FAMILY@,
        ui_font_size: None,
        buffer_font_size: None,
        syntax_styles: Seq::empty(),
        syntax_default_color: DEFAULT_TEXT_PRIMARY,
    }
}

impl Default for ResolvedTheme {
    fn default() -> (r: Self)
        ensures
            r@ == default_theme(),
    {
        let r = ResolvedTheme {
            palette: Palette::default(),
            ui_font_family: DEFAULT_UI_FONT_FAMILY.to_owned(),
            buffer_font_family: DEFAULT_BUFFER_FONT_FAMILY.to_owned(),
            ui_font_size: None,
            buffer_font_size: None,
            syntax_styles: Vec::new(),
            syntax_default_color: DEFAULT_TEXT_PRIMARY,
        };
        assert(styles_view(r.syntax_styles@) =~= Seq::empty());
        r
    }
}

impl Clone for ResolvedTheme {
    fn clone(&self) -> (r: Self)
        ensures
            r@ == self@,
    {
        ResolvedTheme {
            palette: self.palette,
            ui_font_family: self.ui_font_family.clone(),
            buffer_font_family: self.buffer_font_family.clone(),
            ui_font_size: self.ui_font_size,
            buffer_font_size: self.buffer_font_size,
            syntax_styles: copy_styles(&self.syntax_styles),
            syntax_default_color: self.syntax_default_color,
        }
    }
}

impl ThemeModel {
    /// Every style of the theme can be read.
    pub open spec fn readable(self) -> bool {
        forall|i: int| 0 <= i < self.syntax_styles.len() ==> style_ok(
            (#[trigger] self.syntax_styles[i]).1,
        )
    }

    /// The styles that the colour of a capture depends on can be read.
    pub open spec fn color_ok(self, capture: Seq<char>) -> bool {
        is_punctuation(capture) || matches_ok(self.syntax_styles, resolved_capture(capture))
    }

    /// The style of a capture can be read.
    pub open spec fn render_ok(self, capture: Seq<char>) -> bool {
        is_punctuation(capture) || style_ok(
            style_for(self.syntax_styles, resolved_capture(capture)),
        )
    }

    /// The colour of a capture.
    pub open spec fn color(self, capture: Seq<char>) -> u32 {
        if is_punctuation(capture) {
            self.syntax_default_color
        } else {
            or_color(
                style_color(style_for(self.syntax_styles, resolved_capture(capture))),
                self.syntax_default_color,
            )
        }
    }

    /// How text under a capture is drawn.
    pub open spec fn render_style(self, capture: Seq<char>) -> SyntaxRenderStyle {
        if is_punctuation(capture) {
            plain_style(self.syntax_default_color)
        } else {
            let style = style_for(self.syntax_styles, resolved_capture(capture));
            SyntaxRenderStyle {
                color: or_color(style_color(style), self.syntax_default_color),
                italic: style.font_style == Some("italic"@),
                bold: style.font_style == Some("bold"@) || (style.font_weight matches Some(w) && w
                    >= BOLD_WEIGHT),
                underline: style.font_style == Some("underline"@),
                strikethrough: style.font_style == Some("strikethrough"@),
            }
        }
    }
}

/// In a theme whose styles can all be read, every capture has a colour and a style, and the two
/// agree on the colour.
pub proof fn law_color_agrees_with_style(theme: ThemeModel, capture: Seq<char>)
    requires
        theme.readable(),
    ensures
        theme.color_ok(capture),
        theme.render_ok(capture),
        theme.render_style(capture).color == theme.color(capture),
{
    law_best_match(theme.syntax_styles, resolved_capture(capture));
}

fn is_text(o: &Option<String>, s: &str) -> (r: bool)
    ensures
        r == (text::opt_text(*o) == Some(s@)),
{
    match o {
        Some(t) => same(t.as_str(), s),
        None => false,
    }
}

impl ResolvedTheme {
    /// The colour of a capture.
    pub fn syntax_color(&self, capture_name: &str) -> (r: u32)
        requires
            self@.color_ok(capture_name@),
        ensures
            r == self@.color(capture_name@),
    {
        if syntax_capture_is_punctuation(capture_name) {
            return self.syntax_default_color;
        }
        let name = if syntax_capture_uses_variable_color(capture_name) {
            "variable"
        } else {
            capture_name
        };
        syntax_color_from_styles(&self.syntax_styles, name, self.syntax_default_color)
    }

    /// Whether the styles that the colour of a capture depends on can be read.
    pub fn can_color(&self, capture_name: &str) -> (r: bool)
        ensures
            r == self@.color_ok(capture_name@),
    {
        if syntax_capture_is_punctuation(capture_name) {
            return true;
        }
        let name = if syntax_capture_uses_variable_color(capture_name) {
            "variable"
        } else {
            capture_name
        };
        let ghost styles = self@.syntax_styles;
        let mut i: usize = 0;
        while i < self.syntax_styles.len()
            invariant
                i <= self.syntax_styles.len(),
                styles == styles_view(self.syntax_styles@),
                !is_punctuation(capture_name@),
                name@ == resolved_capture(capture_name@),
                forall|k: int|
                    0 <= k < i && token_matches((#[trigger] styles[k]).0, name@) ==> style_ok(
                        styles[k].1,
                    ),
            decreases self.syntax_styles.len() - i,
        {
            let (token, style) = &self.syntax_styles[i];
            assert(styles[i as int] == (token@, style@));
            let mut specificity: usize = 0;
            if syntax_token_matches_capture(token.as_str(), name, &mut specificity) {
                if let Some(t) = &style.color {
                    if !color_text_is_ok(t.as_str()) {
                        return false;
                    }
                }
            }
            i += 1;
        }
        true
    }

    /// Whether the style of a capture can be read.
    pub fn can_render(&self, capture_name: &str) -> (r: bool)
        ensures
            r == self@.render_ok(capture_name@),
    {
        if syntax_capture_is_punctuation(capture_name) {
            return true;
        }
        let name = if syntax_capture_uses_variable_color(capture_name) {
            "variable"
        } else {
            capture_name
        };
        match syntax_style_for_capture(&self.syntax_styles, name).color {
            Some(t) => color_text_is_ok(t.as_str()),
            None => true,
        }
    }

    /// How text under a capture is drawn.
    pub fn syntax_render_style(&self, capture_name: &str) -> (r: SyntaxRenderStyle)
        requires
            self@.render_ok(capture_name@),
        ensures
            r == self@.render_style(capture_name@),
    {
        if syntax_capture_is_punctuation(capture_name) {
            return SyntaxRenderStyle {
                color: self.syntax_default_color,
                italic: false,
                bold: false,
                underline: false,
                strikethrough: false,
            };
        }
        let name = if syntax_capture_uses_variable_color(capture_name) {
            "variable"
        } else {
            capture_name
        };
        let style = syntax_style_for_capture(&self.syntax_styles, name);
        let color = match syntax_style_color(&style) {
            Some(c) => c,
            None => self.syntax_default_color,
        };
        let heavy = match style.font_weight {
            Some(w) => w >= BOLD_WEIGHT,
            None => false,
        };
        SyntaxRenderStyle {
            color,
            italic: is_text(&style.font_style, "italic"),
            bold: is_text(&style.font_style, "bold") || heavy,
            underline: is_text(&style.font_style, "underline"),
            strikethrough: is_text(&style.font_style, "strikethrough"),
        }
    }
}

/// The theme in force and a number that changes whenever the theme is replaced.
#[derive(Debug)]
pub struct ActiveTheme {
    pub theme: ResolvedTheme,
    pub version: u64,
}

pub struct ActiveModel {
    pub theme: ThemeModel,
    pub version: u64,
}

impl View for ActiveTheme {
    type V = ActiveModel;

    open spec fn view(&self) -> ActiveModel {
        ActiveModel { theme: self.theme@, version: self.version }
    }
}

impl Default for ActiveTheme {
    fn default() -> (r: Self)
        ensures
            r@ == (ActiveModel { theme: default_theme(), version: 1 }),
    {
        ActiveTheme { theme: ResolvedTheme::default(), version: 1 }
    }
}

impl ActiveTheme {
    /// Puts a theme in force.
    pub fn replace(&mut self, theme: ResolvedTheme)
        ensures
            final(self)@ == (ActiveModel {
                theme: theme@,
                version: old(self)@.version.wrapping_add(1),
            }),
    {
        self.theme = theme;
        self.version = self.version.wrapping_add(1);
    }
}

pub fn current(active: &ActiveTheme) -> (r: ResolvedTheme)
    ensures
        r@ == active.theme@,
{
    active.theme.clone()
}

pub fn palette(active: &ActiveTheme) -> (r: Palette)
    ensures
        r == active.theme@.palette,
{
    active.theme.palette
}

pub fn ui_font_family(active: &ActiveTheme) -> (r: String)
    ensures
        r@ == active.theme@.ui_font_family,
{
    active.theme.ui_font_family.clone()
}

pub fn buffer_font_family(active: &ActiveTheme) -> (r: String)
    ensures
        r@ == active.theme@.buffer_font_family,
{
    active.theme.buffer_font_family.clone()
}

pub fn syntax_color(active: &ActiveTheme, capture_name: &str) -> (r: u32)
    requires
        active.theme@.color_ok(capture_name@),
    ensures
        r == active.theme@.color(capture_name@),
{
    active.theme.syntax_color(capture_name)
}

pub fn syntax_render_style(active: &ActiveTheme, capture_name: &str) -> (r: SyntaxRenderStyle)
    requires
        active.theme@.render_ok(capture_name@),
    ensures
        r == active.theme@.render_style(capture_name@),
{
    active.theme.syntax_render_style(capture_name)
}

pub fn version(active: &ActiveTheme) -> (r: u64)
    ensures
        r == active.version,
{
    active.version
}

/// Every part of a token's name is a part of the capture's name.
pub open spec fn applies(token: Seq<char>, capture: Seq<char>) -> bool {
    forall|k: int|
        0 <= k < text::split(token, '.', '.').len() ==> text::split(capture, '.', '.').contains(
            #[trigger] text::split(token, '.', '.')[k],
        )
}

/// A style applies to a capture and no other that applies names it more closely: in more parts, or
/// in as many further down.
pub open spec fn is_closest(
    styles: Seq<(Seq<char>, SyntaxStyleModel)>,
    capture: Seq<char>,
    i: int,
) -> bool {
    &&& 0 <= i < styles.len()
    &&& applies(styles[i].0, capture)
    &&& forall|j: int|
        0 <= j < styles.len() && applies(#[trigger] styles[j].0, capture) && j != i
            ==> text::split(styles[j].0, '.', '.').len() < text::split(styles[i].0, '.', '.').len()
            || (text::split(styles[j].0, '.', '.').len() == text::split(
            styles[i].0,
            '.',
            '.',
        ).len() && j < i)
}

/// A capture is drawn in the style that names it most closely: in its colour, if it has one that
/// can be read, and with the font features that it asks for. Where none applies, and where the
/// style has no colour, text has the default colour.
pub proof fn law_captures_take_the_closest_style(theme: ThemeModel, capture: Seq<char>, i: int)
    requires
        capture != "punctuation"@,
        capture != "operator"@,
        !"punctuation."@.is_prefix_of(capture),
        capture != "constant"@,
        capture != "constructor"@,
        capture != "type"@,
        !"constant."@.is_prefix_of(capture),
        !"constructor."@.is_prefix_of(capture),
    ensures
        is_closest(theme.syntax_styles, capture, i) ==> {
            let style = theme.syntax_styles[i].1;
            let drawn = theme.render_style(capture);
            &&& drawn.color == theme.color(capture)
            &&& style.color is None ==> drawn.color == theme.syntax_default_color
            &&& style.color matches Some(t) ==> (color::color_value(t) is None ==> drawn.color
                == theme.syntax_default_color) && (color::color_value(t) matches Some(c)
                ==> drawn.color == c)
            &&& drawn.italic <==> style.font_style == Some("italic"@)
            &&& drawn.underline <==> style.font_style == Some("underline"@)
            &&& drawn.strikethrough <==> style.font_style == Some("strikethrough"@)
            &&& style.font_style == Some("bold"@) ==> drawn.bold
            &&& style.font_weight matches Some(w) ==> (w >= 600 ==> drawn.bold)
            &&& style.font_style != Some("bold"@) && (style.font_weight matches Some(w) ==> w < 600)
                ==> !drawn.bold
        },
        (forall|j: int|
            0 <= j < theme.syntax_styles.len() ==> !applies(
                (#[trigger] theme.syntax_styles[j]).0,
                capture,
            )) ==> theme.color(capture) == theme.syntax_default_color && theme.render_style(capture)
            == (SyntaxRenderStyle {
            color: theme.syntax_default_color,
            italic: false,
            bold: false,
            underline: false,
            strikethrough: false,
        }),
{
    let styles = theme.syntax_styles;
    law_best_match(styles, capture);
    assert forall|token: Seq<char>| #[trigger] token_matches(token, capture) == applies(
        token,
        capture,
    ) by {
        let parts = text::split(token, '.', '.');
        if token_matches(token, capture) {
            assert forall|k: int| 0 <= k < parts.len() implies text::split(
                capture,
                '.',
                '.',
            ).contains(#[trigger] parts[k]) by {
                assert(name_parts(capture).contains(name_parts(token)[k]));
            }
        }
        if applies(token, capture) {
            assert forall|i: int| 0 <= i < name_parts(token).len() implies name_parts(
                capture,
            ).contains(#[trigger] name_parts(token)[i]) by {
                assert(text::split(capture, '.', '.').contains(parts[i]));
            }
        }
    }
    if is_closest(styles, capture, i) {
        assert(token_matches(styles[i].0, capture));
        let b = best_match(styles, capture)->0;
        assert(applies(styles[b].0, capture));
    } else {
        if let Some(b) = best_match(styles, capture) {
            assert(token_matches(styles[b].0, capture));
        }
    }
}

/// Punctuation and operators are drawn in the default colour, whatever the styles say. Constants,
/// constructors and types are drawn like variables.
pub proof fn law_special_captures(theme: ThemeModel, rest: Seq<char>)
    ensures
        ({
            let plain = SyntaxRenderStyle {
                color: theme.syntax_default_color,
                italic: false,
                bold: false,
                underline: false,
                strikethrough: false,
            };
            &&& theme.render_style("punctuation"@) == plain
            &&& theme.render_style("operator"@) == plain
            &&& theme.render_style("punctuation."@ + rest) == plain
            &&& theme.color("punctuation"@) == theme.syntax_default_color
            &&& theme.color("operator"@) == theme.syntax_default_color
            &&& theme.color("punctuation."@ + rest) == theme.syntax_default_color
        }),
        ({
            let variable = theme.render_style("variable"@);
            &&& theme.render_style("constant"@) == variable
            &&& theme.render_style("constructor"@) == variable
            &&& theme.render_style("type"@) == variable
            &&& theme.render_style("constant."@ + rest) == variable
            &&& theme.render_style("constructor."@ + rest) == variable
            &&& theme.color("constant"@) == theme.color("variable"@)
            &&& theme.color("constructor"@) == theme.color("variable"@)
            &&& theme.color("type"@) == theme.color("variable"@)
            &&& theme.color("constant."@ + rest) == theme.color("variable"@)
            &&& theme.color("constructor."@ + rest) == theme.color("variable"@)
        }),
{
    reveal_strlit("punctuation");
    reveal_strlit("operator");
    reveal_strlit("punctuation.");
    reveal_strlit("variable");
    reveal_strlit("constant");
    reveal_strlit("constructor");
    reveal_strlit("type");
    reveal_strlit("constant.");
    reveal_strlit("constructor.");
    assert("punctuation."@.is_prefix_of("punctuation."@ + rest)) by {
        assert(("punctuation."@ + rest).subrange(0, 12) =~= "punctuation."@);
    }
    assert("constant."@.is_prefix_of("constant."@ + rest)) by {
        assert(("constant."@ + rest).subrange(0, 9) =~= "constant."@);
    }
    assert("constructor."@.is_prefix_of("constructor."@ + rest)) by {
        assert(("constructor."@ + rest).subrange(0, 12) =~= "constructor."@);
    }
    assert("variable"@[0] == 'v' && "punctuation"@[0] == 'p' && "operator"@[0] == 'o');
    assert("constant"@[0] == 'c' && "constructor"@[0] == 'c' && "type"@[0] == 't');
    assert(("constant."@ + rest)[0] == 'c' && ("constructor."@ + rest)[0] == 'c');
    lemma_starts_apart("punctuation."@, "variable"@);
    lemma_starts_apart("constant."@, "variable"@);
    lemma_starts_apart("constructor."@, "variable"@);
    lemma_starts_apart("punctuation."@, "constant"@);
    lemma_starts_apart("punctuation."@, "constructor"@);
    lemma_starts_apart("punctuation."@, "type"@);
    lemma_starts_apart("punctuation."@, "constant."@ + rest);
    lemma_starts_apart("punctuation."@, "constructor."@ + rest);
}

proof fn lemma_starts_apart(prefix: Seq<char>, t: Seq<char>)
    requires
        prefix.len() > 0,
        t.len() > 0,
        prefix[0] != t[0],
    ensures
        !prefix.is_prefix_of(t),
{
    if prefix.is_prefix_of(t) {
        assert(t.subrange(0, prefix.len() as int)[0] == t[0]);
    }
}

/// The look without settings and themes.
pub proof fn law_default_look()
    ensures
        ({
            let theme = default_theme();
            &&& theme.palette.bg == 0x1C1C1E
            &&& theme.palette.border == 0x2F2F31
            &&& theme.palette.selected_row == 0x2C3F59
            &&& theme.palette.hover_row == 0x2A2A2C
            &&& theme.palette.text_primary == 0xFFFFFF
            &&& theme.palette.text_secondary == 0x8E8E93
            &&& theme.palette.text_dim == 0x6C6C70
            &&& theme.palette.status_bar_bg == 0x18181A
            &&& theme.palette.match_highlight == 0x4A9EFF
            &&& theme.palette.preview_bg == 0x161618
            &&& theme.syntax_default_color == 0xFFFFFF
            &&& theme.syntax_styles.len() == 0
            &&& theme.ui_font_family == ".ZedSans"@
            &&& theme.buffer_font_family == ".ZedMono"@
            &&& theme.ui_font_size is None
            &&& theme.buffer_font_size is None
        }),
{
}

/// What the models hold of styles is theirs, one for one and in their order.
pub proof fn law_styles_are_faithful(styles: Seq<(String, SyntaxStyle)>, i: int)
    requires
        0 <= i < styles.len(),
    ensures
        ({
            let (name, style) = styles_view(styles)[i];
            &&& styles_view(styles).len() == styles.len()
            &&& name == styles[i].0@
            &&& style.color == text::opt_text(styles[i].1.color)
            &&& style.background_color == text::opt_text(styles[i].1.background_color)
            &&& style.font_style == text::opt_text(styles[i].1.font_style)
            &&& style.font_weight == styles[i].1.font_weight
        }),
{
}

} // verus!

//! Zed's settings and themes: reading a theme's colours, the catalog of themes, and the theme that
//! the settings and the configuration together ask for.

use vstd::prelude::*;

use crate::color;
use crate::color::{color_text_is_ok, parse_color_rgb};
use crate::config::{AppConfig, FontConfig, ThemeConfig};
use crate::grammar;
use crate::grammar::extension_of;
use crate::text;
use crate::text::{copy_opt, lowered_of, same, trimmed};
use crate::theme;
use crate::theme::{
    copy_styles, ActiveTheme, Palette, ResolvedTheme, SyntaxStyle, SyntaxStyleModel,
    DEFAULT_BG, DEFAULT_BORDER, DEFAULT_BUFFER_FONT_FAMILY, DEFAULT_HOVER_ROW,
    DEFAULT_MATCH_HIGHLIGHT, DEFAULT_PREVIEW_BG, DEFAULT_SELECTED_ROW, DEFAULT_STATUS_BAR_BG,
    DEFAULT_TEXT_DIM, DEFAULT_TEXT_PRIMARY, DEFAULT_TEXT_SECONDARY, DEFAULT_UI_FONT_FAMILY,
};

verus! {

/// A value in a theme file. A number is a whole one; a fraction of it is cut off.
#[derive(Debug)]
pub enum StyleValue {
    Text(String),
    Number(u32),
    Object(Vec<(String, StyleValue)>),
    Other,
}

/// The index of the first field with a name, or the number of fields.
pub open spec fn field_index(fields: Seq<(String, StyleValue)>, key: Seq<char>) -> int
    decreases fields.len(),
{
    if fields.len() == 0 || fields[0].0@ == key {
        0
    } else {
        1 + field_index(fields.drop_first(), key)
    }
}

/// The value of a field.
pub open spec fn field(fields: Seq<(String, StyleValue)>, key: Seq<char>) -> Option<StyleValue> {
    let i = field_index(fields, key);
    if i < fields.len() {
        Some(fields[i].1)
    } else {
        None
    }
}

/// The value of a field; only an object has fields.
pub open spec fn member(value: StyleValue, key: Seq<char>) -> Option<StyleValue> {
    match value {
        StyleValue::Object(fields) => field(fields@, key),
        _ => None,
    }
}

/// The text that an optional value holds.
pub open spec fn value_text(value: Option<StyleValue>) -> Option<Seq<char>> {
    match value {
        Some(StyleValue::Text(s)) => Some(s@),
        _ => None,
    }
}

pub open spec fn value_number(value: Option<StyleValue>) -> Option<u32> {
    match value {
        Some(StyleValue::Number(n)) => Some(n),
        _ => None,
    }
}

proof fn lemma_field_index(fields: Seq<(String, StyleValue)>, key: Seq<char>, k: int)
    requires
        0 <= k <= fields.len(),
        forall|i: int| 0 <= i < k ==> (#[trigger] fields[i]).0@ != key,
        k < fields.len() ==> fields[k].0@ == key,
    ensures
        field_index(fields, key) == k,
    decreases fields.len(),
{
    if k > 0 {
        let rest = fields.drop_first();
        assert forall|i: int| 0 <= i < k - 1 implies (#[trigger] rest[i]).0@ != key by {
            assert(rest[i] == fields[i + 1]);
        }
        lemma_field_index(rest, key, k - 1);
    }
}

fn find_field<'a>(fields: &'a Vec<(String, StyleValue)>, key: &str) -> (r: Option<&'a StyleValue>)
    ensures
        r matches Some(v) ==> field(fields@, key@) == Some(*v),
        r is None ==> field(fields@, key@) is None,
{
    let mut i: usize = 0;
    while i < fields.len()
        invariant
            i <= fields.len(),
            forall|k: int| 0 <= k < i ==> (#[trigger] fields@[k]).0@ != key@,
        decreases fields.len() - i,
    {
        if same(fields[i].0.as_str(), key) {
            proof {
                lemma_field_index(fields@, key@, i as int);
            }
            return Some(&fields[i].1);
        }
        i += 1;
    }
    proof {
        lemma_field_index(fields@, key@, fields@.len() as int);
    }
    None
}

fn find_member<'a>(value: &'a StyleValue, key: &str) -> (r: Option<&'a StyleValue>)
    ensures
        r matches Some(v) ==> member(*value, key@) == Some(*v),
        r is None ==> member(*value, key@) is None,
{
    match value {
        StyleValue::Object(fields) => find_field(fields, key),
        _ => None,
    }
}

fn field_text(fields: &Vec<(String, StyleValue)>, key: &str) -> (r: Option<String>)
    ensures
        text::opt_text(r) == value_text(field(fields@, key@)),
{
    match find_field(fields, key) {
        Some(StyleValue::Text(s)) => Some(s.clone()),
        _ => None,
    }
}

/// The style that an object of a theme file gives to a token.
pub open spec fn style_of_fields(fields: Seq<(String, StyleValue)>) -> SyntaxStyleModel {
    SyntaxStyleModel {
        color: value_text(field(fields, "color"@)),
        background_color: value_text(field(fields, "background_color"@)),
        font_style: value_text(field(fields, "font_style"@)),
        font_weight: value_number(field(fields, "font_weight"@)),
    }
}

impl SyntaxStyle {
    pub fn from_value(fields: &Vec<(String, StyleValue)>) -> (r: Self)
        ensures
            r@ == style_of_fields(fields@),
    {
        let font_weight = match find_field(fields, "font_weight") {
            Some(StyleValue::Number(n)) => Some(*n),
            _ => None,
        };
        SyntaxStyle {
            color: field_text(fields, "color"),
            background_color: field_text(fields, "background_color"),
            font_style: field_text(fields, "font_style"),
            font_weight,
        }
    }
}

/// The token styles of a list of fields, in their order: those fields that hold objects, but for
/// the one named `background_color`.
pub open spec fn styles_of_fields(
    fields: Seq<(String, StyleValue)>,
) -> Seq<(Seq<char>, SyntaxStyleModel)>
    decreases fields.len(),
{
    if fields.len() == 0 {
        Seq::empty()
    } else {
        let earlier = styles_of_fields(fields.drop_last());
        match fields.last() {
            (name, StyleValue::Object(inner)) => if name@ == "background_color"@ {
                earlier
            } else {
                earlier.push((name@, style_of_fields(inner@)))
            },
            _ => earlier,
        }
    }
}

/// The token styles of a theme: those under its `syntax` field.
pub open spec fn styles_of(style: StyleValue) -> Seq<(Seq<char>, SyntaxStyleModel)> {
    match member(style, "syntax"@) {
        Some(StyleValue::Object(fields)) => styles_of_fields(fields@),
        _ => Seq::empty(),
    }
}

pub fn syntax_styles_from_style(style: &StyleValue) -> (r: Vec<(String, SyntaxStyle)>)
    ensures
        theme::styles_view(r@) == styles_of(*style),
{
    let mut r: Vec<(String, SyntaxStyle)> = Vec::new();
    assert(theme::styles_view(r@) =~= Seq::empty());
    match find_member(style, "syntax") {
        Some(StyleValue::Object(fields)) => {
            let mut i: usize = 0;
            assert(fields@.take(0) =~= Seq::empty());
            while i < fields.len()
                invariant
                    i <= fields.len(),
                    theme::styles_view(r@) == styles_of_fields(fields@.take(i as int)),
                decreases fields.len() - i,
            {
                let ghost before = theme::styles_view(r@);
                assert(fields@.take(i + 1).drop_last() =~= fields@.take(i as int));
                assert(fields@.take(i + 1).last() == fields@[i as int]);
                if let StyleValue::Object(inner) = &fields[i].1 {
                    if !same(fields[i].0.as_str(), "background_color") {
                        let name = fields[i].0.clone();
                        let parsed = SyntaxStyle::from_value(inner);
                        r.push((name, parsed));
                        assert(theme::styles_view(r@) =~= before.push((name@, parsed@)));
                    }
                }
                i += 1;
            }
            assert(fields@.take(i as int) =~= fields@);
        },
        _ => {},
    }
    r
}

/// The colour text under a key, if there is one, can be read.
pub open spec fn key_ok(style: StyleValue, key: Seq<char>) -> bool {
    value_text(member(style, key)) matches Some(t) ==> color::color_text_ok(t)
}

/// The colour under a key.
pub open spec fn color_at(style: StyleValue, key: Seq<char>) -> Option<u32> {
    match value_text(member(style, key)) {
        Some(t) => color::color_value(t),
        None => None,
    }
}

pub fn color_from_style(style: &StyleValue, key: &str) -> (r: Option<u32>)
    requires
        key_ok(*style, key@),
    ensures
        r == color_at(*style, key@),
{
    match find_member(style, key) {
        Some(StyleValue::Text(s)) => parse_color_rgb(s.as_str()),
        _ => None,
    }
}

/// The keys that are tried for a colour can be read, up to the first that gives one.
pub open spec fn chain_ok(style: StyleValue, a: Seq<char>, b: Seq<char>, c: Seq<char>) -> bool {
    &&& key_ok(style, a)
    &&& color_at(style, a) is None ==> key_ok(style, b)
    &&& color_at(style, a) is None && color_at(style, b) is None ==> key_ok(style, c)
}

/// The first colour that one of three keys gives.
pub open spec fn chain_color(
    style: StyleValue,
    a: Seq<char>,
    b: Seq<char>,
    c: Seq<char>,
    fallback: u32,
) -> u32 {
    if color_at(style, a) is Some {
        color_at(style, a)->0
    } else if color_at(style, b) is Some {
        color_at(style, b)->0
    } else if color_at(style, c) is Some {
        color_at(style, c)->0
    } else {
        fallback
    }
}

/// The first colour that one of three keys gives, or the fallback. Shorter lists of keys repeat
/// their last key.
fn first_color(style: &StyleValue, a: &str, b: &str, c: &str, fallback: u32) -> (r: u32)
    requires
        chain_ok(*style, a@, b@, c@),
    ensures
        r == chain_color(*style, a@, b@, c@, fallback),
{
    if let Some(found) = color_from_style(style, a) {
        return found;
    }
    if let Some(found) = color_from_style(style, b) {
        return found;
    }
    match color_from_style(style, c) {
        Some(found) => found,
        None => fallback,
    }
}

/// The colours that the palette is read from can be read.
pub open spec fn palette_ok(style: StyleValue) -> bool {
    &&& chain_ok(style, "background"@, "surface.background"@, "editor.background"@)
    &&& chain_ok(style, "border"@, "border"@, "border"@)
    &&& chain_ok(style, "element.selected"@, "element.active"@, "element.active"@)
    &&& chain_ok(style, "element.hover"@, "element.hover"@, "element.hover"@)
    &&& chain_ok(style, "text"@, "text"@, "text"@)
    &&& chain_ok(style, "text.muted"@, "icon.muted"@, "icon.muted"@)
    &&& chain_ok(style, "text.placeholder"@, "text.disabled"@, "icon.placeholder"@)
    &&& chain_ok(
        style,
        "status_bar.background"@,
        "title_bar.background"@,
        "title_bar.background"@,
    )
    &&& chain_ok(
        style,
        "search.match_background"@,
        "search.active_match_background"@,
        "text.accent"@,
    )
    &&& chain_ok(style, "editor.background"@, "surface.background"@, "surface.background"@)
}

/// The palette of a theme: for each colour the first of its keys that gives one.
pub open spec fn palette_of(style: StyleValue) -> Palette {
    Palette {
        bg: chain_color(
            style,
            "background"@,
            "surface.background"@,
            "editor.background"@,
            DEFAULT_BG,
        ),
        border: chain_color(style, "border"@, "border"@, "border"@, DEFAULT_BORDER),
        selected_row: chain_color(
            style,
            "element.selected"@,
            "element.active"@,
            "element.active"@,
            DEFAULT_SELECTED_ROW,
        ),
        hover_row: chain_color(
            style,
            "element.hover"@,
            "element.hover"@,
            "element.hover"@,
            DEFAULT_HOVER_ROW,
        ),
        text_primary: chain_color(style, "text"@, "text"@, "text"@, DEFAULT_TEXT_PRIMARY),
        text_secondary: chain_color(
            style,
            "text.muted"@,
            "icon.muted"@,
            "icon.muted"@,
            DEFAULT_TEXT_SECONDARY,
        ),
        text_dim: chain_color(
            style,
            "text.placeholder"@,
            "text.disabled"@,
            "icon.placeholder"@,
            DEFAULT_TEXT_DIM,
        ),
        status_bar_bg: chain_color(
            style,
            "status_bar.background"@,
            "title_bar.background"@,
            "title_bar.background"@,
            DEFAULT_STATUS_BAR_BG,
        ),
        match_highlight: chain_color(
            style,
            "search.match_background"@,
            "search.active_match_background"@,
            "text.accent"@,
            DEFAULT_MATCH_HIGHLIGHT,
        ),
        preview_bg: chain_color(
            style,
            "editor.background"@,
            "surface.background"@,
            "surface.background"@,
            DEFAULT_PREVIEW_BG,
        ),
    }
}

pub fn palette_from_style(style: &StyleValue) -> (r: Palette)
    requires
        palette_ok(*style),
    ensures
        r == palette_of(*style),
{
    Palette {
        bg: first_color(
            style,
            "background",
            "surface.background",
            "editor.background",
            DEFAULT_BG,
        ),
        border: first_color(style, "border", "border", "border", DEFAULT_BORDER),
        selected_row: first_color(
            style,
            "element.selected",
            "element.active",
            "element.active",
            DEFAULT_SELECTED_ROW,
        ),
        hover_row: first_color(
            style,
            "element.hover",
            "element.hover",
            "element.hover",
            DEFAULT_HOVER_ROW,
        ),
        text_primary: first_color(style, "text", "text", "text", DEFAULT_TEXT_PRIMARY),
        text_secondary: first_color(
            style,
            "text.muted",
            "icon.muted",
            "icon.muted",
            DEFAULT_TEXT_SECONDARY,
        ),
        text_dim: first_color(
            style,
            "text.placeholder",
            "text.disabled",
            "icon.placeholder",
            DEFAULT_TEXT_DIM,
        ),
        status_bar_bg: first_color(
            style,
            "status_bar.background",
            "title_bar.background",
            "title_bar.background",
            DEFAULT_STATUS_BAR_BG,
        ),
        match_highlight: first_color(
            style,
            "search.match_background",
            "search.active_match_background",
            "text.accent",
            DEFAULT_MATCH_HIGHLIGHT,
        ),
        preview_bg: first_color(
            style,
            "editor.background",
            "surface.background",
            "surface.background",
            DEFAULT_PREVIEW_BG,
        ),
    }
}

fn key_is_ok(style: &StyleValue, key: &str) -> (r: bool)
    ensures
        r == key_ok(*style, key@),
{
    match find_member(style, key) {
        Some(StyleValue::Text(s)) => color_text_is_ok(s.as_str()),
        _ => true,
    }
}

fn chain_is_ok(style: &StyleValue, a: &str, b: &str, c: &str) -> (r: bool)
    ensures
        r == chain_ok(*style, a@, b@, c@),
{
    if !key_is_ok(style, a) {
        return false;
    }
    if color_from_style(style, a).is_some() {
        return true;
    }
    if !key_is_ok(style, b) {
        return false;
    }
    if color_from_style(style, b).is_some() {
        return true;
    }
    key_is_ok(style, c)
}

/// The colours that a theme is read from can be read.
pub open spec fn style_value_ok(style: StyleValue) -> bool {
    palette_ok(style) && chain_ok(style, "editor.foreground"@, "text"@, "text"@)
}

/// Whether a theme's colours can be read.
pub fn style_is_ok(style: &StyleValue) -> (r: bool)
    ensures
        r == style_value_ok(*style),
{
    chain_is_ok(style, "background", "surface.background", "editor.background") && chain_is_ok(
        style,
        "border",
        "border",
        "border",
    ) && chain_is_ok(style, "element.selected", "element.active", "element.active")
        && chain_is_ok(style, "element.hover", "element.hover", "element.hover") && chain_is_ok(
        style,
        "text",
        "text",
        "text",
    ) && chain_is_ok(style, "text.muted", "icon.muted", "icon.muted") && chain_is_ok(
        style,
        "text.placeholder",
        "text.disabled",
        "icon.placeholder",
    ) && chain_is_ok(
        style,
        "status_bar.background",
        "title_bar.background",
        "title_bar.background",
    ) && chain_is_ok(
        style,
        "search.match_background",
        "search.active_match_background",
        "text.accent",
    ) && chain_is_ok(style, "editor.background", "surface.background", "surface.background")
        && chain_is_ok(style, "editor.foreground", "text", "text")
}

/// One theme of a theme file.
#[derive(Debug)]
pub struct ThemeVariant {
    pub name: String,
    pub style: StyleValue,
}

/// What the catalog knows of a theme.
#[derive(Debug)]
pub struct ThemeCatalogEntry {
    pub palette: Palette,
    pub syntax_styles: Vec<(String, SyntaxStyle)>,
    pub syntax_default_color: u32,
}

pub struct EntryModel {
    pub palette: Palette,
    pub syntax_styles: Seq<(Seq<char>, SyntaxStyleModel)>,
    pub syntax_default_color: u32,
}

impl View for ThemeCatalogEntry {
    type V = EntryModel;

    open spec fn view(&self) -> EntryModel {
        EntryModel {
            palette: self.palette,
            syntax_styles: theme::styles_view(self.syntax_styles@),
            syntax_default_color: self.syntax_default_color,
        }
    }
}

/// The themes that are known, each under its normalized name.
#[derive(Debug)]
pub struct ThemeCatalog {
    entries: Vec<(String, ThemeCatalogEntry)>,
}

/// The map that a list of insertions builds up.
pub open spec fn inserted(
    entries: Seq<(String, ThemeCatalogEntry)>,
) -> Map<Seq<char>, EntryModel>
    decreases entries.len(),
{
    if entries.len() == 0 {
        Map::empty()
    } else {
        inserted(entries.drop_last()).insert(entries.last().0@, entries.last().1@)
    }
}

impl View for ThemeCatalog {
    type V = Map<Seq<char>, EntryModel>;

    closed spec fn view(&self) -> Map<Seq<char>, EntryModel> {
        inserted(self.entries@)
    }
}

impl ThemeCatalog {
    pub fn new() -> (r: Self)
        ensures
            r@ == Map::<Seq<char>, EntryModel>::empty(),
    {
        ThemeCatalog { entries: Vec::new() }
    }

    /// Puts a theme under a key, in place of the one that was there.
    pub fn insert(&mut self, key: String, entry: ThemeCatalogEntry)
        ensures
            final(self)@ == old(self)@.insert(key@, entry@),
    {
        let ghost before = self.entries@;
        self.entries.push((key, entry));
        assert(self.entries@.drop_last() =~= before);
    }

    /// The theme under a key.
    pub fn get(&self, key: &str) -> (r: Option<&ThemeCatalogEntry>)
        ensures
            r matches Some(entry) ==> self@.contains_key(key@) && self@[key@] == entry@,
            r is None ==> !self@.contains_key(key@),
    {
        let mut n: usize = self.entries.len();
        assert(self.entries@.take(n as int) =~= self.entries@);
        while n > 0
            invariant
                n <= self.entries.len(),
                inserted(self.entries@).contains_key(key@) == inserted(
                    self.entries@.take(n as int),
                ).contains_key(key@),
                inserted(self.entries@).contains_key(key@) ==> inserted(self.entries@)[key@]
                    == inserted(self.entries@.take(n as int))[key@],
            decreases n,
        {
            assert(self.entries@.take(n as int).drop_last() =~= self.entries@.take(n - 1));
            if same(self.entries[n - 1].0.as_str(), key) {
                return Some(&self.entries[n - 1].1);
            }
            n -= 1;
        }
        None
    }
}

impl Default for ThemeCatalog {
    fn default() -> (r: Self)
        ensures
            r@ == Map::<Seq<char>, EntryModel>::empty(),
    {
        ThemeCatalog::new()
    }
}

/// The form of a theme's name under which the catalog holds it.
pub open spec fn normalized(name: Seq<char>) -> Seq<char> {
    text::lowered(text::trim(name))
}

pub fn normalize_name(name: &str) -> (r: String)
    ensures
        r@ == normalized(name@),
        vstd::utf8::is_ascii_chars(text::trim(name@)) ==> r@ == text::ascii_lowercase(
            text::trim(name@),
        ),
{
    lowered_of(trimmed(name).as_str())
}

/// What the catalog knows of a theme from its file.
pub open spec fn entry_of(style: StyleValue) -> EntryModel {
    EntryModel {
        palette: palette_of(style),
        syntax_styles: styles_of(style),
        syntax_default_color: chain_color(
            style,
            "editor.foreground"@,
            "text"@,
            "text"@,
            DEFAULT_TEXT_PRIMARY,
        ),
    }
}

/// A catalog after the themes of a file were put in, one after the other.
pub open spec fn with_family(
    catalog: Map<Seq<char>, EntryModel>,
    themes: Seq<ThemeVariant>,
) -> Map<Seq<char>, EntryModel>
    decreases themes.len(),
{
    if themes.len() == 0 {
        catalog
    } else {
        with_family(catalog, themes.drop_last()).insert(
            normalized(themes.last().name@),
            entry_of(themes.last().style),
        )
    }
}

/// Puts the themes of a file into the catalog.
pub fn load_theme_family_file(themes: &Vec<ThemeVariant>, catalog: &mut ThemeCatalog)
    requires
        forall|i: int| 0 <= i < themes.len() ==> style_value_ok((#[trigger] themes[i]).style),
    ensures
        final(catalog)@ == with_family(old(catalog)@, themes@),
{
    let mut i: usize = 0;
    assert(themes@.take(0) =~= Seq::empty());
    while i < themes.len()
        invariant
            i <= themes.len(),
            forall|k: int| 0 <= k < themes.len() ==> style_value_ok((#[trigger] themes[k]).style),
            catalog@ == with_family(old(catalog)@, themes@.take(i as int)),
        decreases themes.len() - i,
    {
        let variant = &themes[i];
        assert(style_value_ok(themes[i as int].style));
        let entry = ThemeCatalogEntry {
            palette: palette_from_style(&variant.style),
            syntax_styles: syntax_styles_from_style(&variant.style),
            syntax_default_color: first_color(
                &variant.style,
                "editor.foreground",
                "text",
                "text",
                DEFAULT_TEXT_PRIMARY,
            ),
        };
        catalog.insert(normalize_name(variant.name.as_str()), entry);
        assert(themes@.take(i + 1).drop_last() =~= themes@.take(i as int));
        i += 1;
    }
    assert(themes@.take(i as int) =~= themes@);
}

/// Whether a file among the local themes holds themes: those that end in `.json` do.
pub fn is_theme_file(path: &str) -> (r: bool)
    ensures
        r == (grammar::extension(path@) == Some("json"@)),
{
    match extension_of(path) {
        Some(ext) => same(ext.as_str(), "json"),
        None => false,
    }
}

/// The themes of a file are there, and their colours can be read.
pub open spec fn family_ok(family: Option<Vec<ThemeVariant>>) -> bool {
    family matches Some(themes) ==> forall|i: int|
        0 <= i < themes.len() ==> style_value_ok((#[trigger] themes[i]).style)
}

/// A catalog after some files were put in, one after the other. Files that could not be loaded are
/// left out.
pub open spec fn with_families(
    catalog: Map<Seq<char>, EntryModel>,
    families: Seq<Option<Vec<ThemeVariant>>>,
) -> Map<Seq<char>, EntryModel>
    decreases families.len(),
{
    if families.len() == 0 {
        catalog
    } else {
        let earlier = with_families(catalog, families.drop_last());
        match families.last() {
            Some(themes) => with_family(earlier, themes@),
            None => earlier,
        }
    }
}

/// Some file could not be loaded.
pub open spec fn any_failed(families: Seq<Option<Vec<ThemeVariant>>>) -> bool {
    exists|i: int| 0 <= i < families.len() && #[trigger] families[i] is None
}

fn load_families(families: &Vec<Option<Vec<ThemeVariant>>>, catalog: &mut ThemeCatalog)
    requires
        forall|i: int| 0 <= i < families.len() ==> family_ok(#[trigger] families[i]),
    ensures
        final(catalog)@ == with_families(old(catalog)@, families@),
{
    let mut i: usize = 0;
    assert(families@.take(0) =~= Seq::empty());
    while i < families.len()
        invariant
            i <= families.len(),
            forall|k: int| 0 <= k < families.len() ==> family_ok(#[trigger] families[k]),
            catalog@ == with_families(old(catalog)@, families@.take(i as int)),
        decreases families.len() - i,
    {
        assert(families@.take(i + 1).drop_last() =~= families@.take(i as int));
        assert(families@.take(i + 1).last() == families@[i as int]);
        assert(family_ok(families[i as int]));
        if let Some(themes) = &families[i] {
            load_theme_family_file(themes, catalog);
        }
        i += 1;
    }
    assert(families@.take(i as int) =~= families@);
}

/// The catalog of the bundled themes, of those that Zed has installed and of the local ones; where
/// names collide, later ones in this order win. A bundled or installed file that could not be
/// loaded is left out; a local one leaves no catalog at all.
pub fn load_theme_catalog(
    bundled: &Vec<Option<Vec<ThemeVariant>>>,
    installed: &Vec<Option<Vec<ThemeVariant>>>,
    local: &Vec<Option<Vec<ThemeVariant>>>,
) -> (r: Option<ThemeCatalog>)
    requires
        forall|i: int| 0 <= i < bundled.len() ==> family_ok(#[trigger] bundled[i]),
        forall|i: int| 0 <= i < installed.len() ==> family_ok(#[trigger] installed[i]),
        forall|i: int| 0 <= i < local.len() ==> family_ok(#[trigger] local[i]),
    ensures
        r is None <==> any_failed(local@),
        r matches Some(catalog) ==> catalog@ == with_families(
            with_families(with_families(Map::empty(), bundled@), installed@),
            local@,
        ),
{
    let mut i: usize = 0;
    while i < local.len()
        invariant
            i <= local.len(),
            forall|k: int| 0 <= k < i ==> !(#[trigger] local[k] is None),
        decreases local.len() - i,
    {
        if local[i].is_none() {
            assert(local@[i as int] is None);
            return None;
        }
        i += 1;
    }
    let mut catalog = ThemeCatalog::new();
    load_families(bundled, &mut catalog);
    load_families(installed, &mut catalog);
    load_families(local, &mut catalog);
    Some(catalog)
}

/// A theme of the file has the key.
pub open spec fn names_key(themes: Seq<ThemeVariant>, key: Seq<char>) -> bool {
    exists|i: int| 0 <= i < themes.len() && normalized((#[trigger] themes[i]).name@) == key
}

proof fn lemma_family_decides(
    a: Map<Seq<char>, EntryModel>,
    b: Map<Seq<char>, EntryModel>,
    themes: Seq<ThemeVariant>,
    key: Seq<char>,
)
    requires
        names_key(themes, key),
    ensures
        with_family(a, themes).contains_key(key),
        with_family(b, themes).contains_key(key),
        with_family(a, themes)[key] == with_family(b, themes)[key],
    decreases themes.len(),
{
    let front = themes.drop_last();
    if normalized(themes.last().name@) != key {
        let i = choose|i: int|
            0 <= i < themes.len() && normalized((#[trigger] themes[i]).name@) == key;
        assert(normalized(front[i].name@) == key);
        lemma_family_decides(a, b, front, key);
    }
}

/// A key that some file has is decided by these files alone, whatever the catalog held before.
pub proof fn law_later_files_win(
    a: Map<Seq<char>, EntryModel>,
    b: Map<Seq<char>, EntryModel>,
    families: Seq<Option<Vec<ThemeVariant>>>,
    key: Seq<char>,
)
    requires
        exists|i: int|
            0 <= i < families.len() && #[trigger] families[i] is Some && names_key(
                families[i]->0@,
                key,
            ),
    ensures
        with_families(a, families).contains_key(key),
        with_families(b, families).contains_key(key),
        with_families(a, families)[key] == with_families(b, families)[key],
    decreases families.len(),
{
    let front = families.drop_last();
    let x = with_families(a, front);
    let y = with_families(b, front);
    let last = families.last();
    if last is Some && names_key(last->0@, key) {
        lemma_family_decides(x, y, last->0@, key);
    } else {
        let i = choose|i: int|
            0 <= i < families.len() && #[trigger] families[i] is Some && names_key(
                families[i]->0@,
                key,
            );
        assert(front[i] == families[i]);
        law_later_files_win(a, b, front, key);
        if last is Some {
            lemma_family_keeps(x, last->0@, key);
            lemma_family_keeps(y, last->0@, key);
        }
    }
}

proof fn lemma_family_keeps(
    catalog: Map<Seq<char>, EntryModel>,
    themes: Seq<ThemeVariant>,
    key: Seq<char>,
)
    requires
        !names_key(themes, key),
        catalog.contains_key(key),
    ensures
        with_family(catalog, themes).contains_key(key),
        with_family(catalog, themes)[key] == catalog[key],
{
    assert forall|i: int| 0 <= i < themes.len() implies normalized(
        (#[trigger] themes[i]).name@,
    ) != key by {}
    law_later_theme_wins(catalog, themes, key);
}

/// The last theme of a name in a file is the one that the catalog has afterwards; themes under
/// other names stay as they were.
pub proof fn law_later_theme_wins(
    catalog: Map<Seq<char>, EntryModel>,
    themes: Seq<ThemeVariant>,
    key: Seq<char>,
)
    ensures
        (forall|i: int| 0 <= i < themes.len() ==> normalized((#[trigger] themes[i]).name@) != key)
            ==> with_family(catalog, themes).contains_key(key) == catalog.contains_key(key) && (
        catalog.contains_key(key) ==> with_family(catalog, themes)[key] == catalog[key]),
        forall|i: int|
            0 <= i < themes.len() && normalized((#[trigger] themes[i]).name@) == key && (forall|
                j: int,
            |
                i < j < themes.len() ==> normalized((#[trigger] themes[j]).name@) != key)
                ==> with_family(catalog, themes).contains_key(key) && with_family(
                catalog,
                themes,
            )[key] == entry_of(themes[i].style),
    decreases themes.len(),
{
    if themes.len() > 0 {
        let front = themes.drop_last();
        law_later_theme_wins(catalog, front, key);
        assert forall|i: int| 0 <= i < front.len() implies #[trigger] front[i] == themes[i] by {}
        let last = themes.len() - 1;
        assert forall|i: int|
            0 <= i < themes.len() && normalized((#[trigger] themes[i]).name@) == key && (forall|
                j: int,
            |
                i < j < themes.len() ==> normalized(
                    (#[trigger] themes[j]).name@,
                ) != key) implies with_family(catalog, themes).contains_key(key) && with_family(
            catalog,
            themes,
        )[key] == entry_of(themes[i].style) by {
            if i < last {
                assert(normalized(themes[last].name@) != key);
                assert(front[i] == themes[i]);
                assert forall|j: int| i < j < front.len() implies normalized(
                    (#[trigger] front[j]).name@,
                ) != key by {
                    assert(front[j] == themes[j]);
                }
            }
        }
        if forall|i: int| 0 <= i < themes.len() ==> normalized((#[trigger] themes[i]).name@) != key {
            assert(normalized(themes[last].name@) != key);
            assert forall|i: int| 0 <= i < front.len() implies normalized(
                (#[trigger] front[i]).name@,
            ) != key by {
                assert(front[i] == themes[i]);
            }
        }
    }
}

#[derive(Debug, Clone, Copy, PartialEq, Eq, Structural)]
pub enum ThemeMode {
    Dark,
    Light,
    System,
}

impl Default for ThemeMode {
    fn default() -> (r: Self)
        ensures
            r == ThemeMode::System,
    {
        ThemeMode::System
    }
}

/// The appearance of the system's windows.
#[derive(Debug, Clone, Copy, PartialEq, Eq, Structural)]
pub enum WindowAppearance {
    Light,
    VibrantLight,
    Dark,
    VibrantDark,
}

/// The theme that Zed's settings choose.
#[derive(Debug)]
pub enum ThemeSelection {
    Static(String),
    Dynamic { mode: ThemeMode, light: String, dark: String },
}

pub open spec fn is_dark(mode: ThemeMode, appearance: WindowAppearance) -> bool {
    match mode {
        ThemeMode::Dark => true,
        ThemeMode::Light => false,
        ThemeMode::System => appearance is Dark || appearance is VibrantDark,
    }
}

/// The name of the chosen theme.
pub open spec fn selected_name(
    selection: ThemeSelection,
    appearance: WindowAppearance,
) -> Seq<char> {
    match selection {
        ThemeSelection::Static(name) => name@,
        ThemeSelection::Dynamic { mode, light, dark } => if is_dark(mode, appearance) {
            dark@
        } else {
            light@
        },
    }
}

pub fn resolve_theme_name(selection: &ThemeSelection, appearance: WindowAppearance) -> (r: String)
    ensures
        r@ == selected_name(*selection, appearance),
{
    match selection {
        ThemeSelection::Static(name) => name.clone(),
        ThemeSelection::Dynamic { mode, light, dark } => match mode {
            ThemeMode::Light => light.clone(),
            ThemeMode::Dark => dark.clone(),
            ThemeMode::System => match appearance {
                WindowAppearance::Dark | WindowAppearance::VibrantDark => dark.clone(),
                WindowAppearance::Light | WindowAppearance::VibrantLight => light.clone(),
            },
        },
    }
}

/// A mode of dark or light decides alone; the system's appearance counts where the mode leaves it
/// to the system.
pub proof fn law_mode_chooses_theme(light: String, dark: String, appearance: WindowAppearance)
    ensures
        selected_name(
            ThemeSelection::Dynamic { mode: ThemeMode::Dark, light, dark },
            appearance,
        ) == dark@,
        selected_name(
            ThemeSelection::Dynamic { mode: ThemeMode::Light, light, dark },
            appearance,
        ) == light@,
        ({
            let name = selected_name(
                ThemeSelection::Dynamic { mode: ThemeMode::System, light, dark },
                appearance,
            );
            match appearance {
                WindowAppearance::Dark => name == dark@,
                WindowAppearance::VibrantDark => name == dark@,
                WindowAppearance::Light => name == light@,
                WindowAppearance::VibrantLight => name == light@,
            }
        }),
        forall|name: String| #[trigger]
            selected_name(ThemeSelection::Static(name), appearance) == name@,
{
}

/// What is read of Zed's settings. A font size is held as the bits of a single-precision number.
#[derive(Debug)]
pub struct ZedSettings {
    pub theme: Option<ThemeSelection>,
    pub ui_font_family: Option<String>,
    pub buffer_font_family: Option<String>,
    pub ui_font_size: Option<u32>,
    pub buffer_font_size: Option<u32>,
}

pub open spec fn no_settings() -> ZedSettings {
    ZedSettings {
        theme: None,
        ui_font_family: None,
        buffer_font_family: None,
        ui_font_size: None,
        buffer_font_size: None,
    }
}

impl Default for ZedSettings {
    fn default() -> (r: Self)
        ensures
            r == no_settings(),
    {
        ZedSettings {
            theme: None,
            ui_font_family: None,
            buffer_font_family: None,
            ui_font_size: None,
            buffer_font_size: None,
        }
    }
}

/// The first value that is there.
pub open spec fn or_else<T>(a: Option<T>, b: Option<T>) -> Option<T> {
    if a is Some {
        a
    } else {
        b
    }
}

fn text_or_else(a: Option<String>, b: &Option<String>) -> (r: Option<String>)
    ensures
        text::opt_text(r) == or_else(text::opt_text(a), text::opt_text(*b)),
{
    match a {
        Some(s) => Some(s),
        None => copy_opt(b),
    }
}

fn number_or_else(a: Option<u32>, b: Option<u32>) -> (r: Option<u32>)
    ensures
        r == or_else(a, b),
{
    match a {
        Some(n) => Some(n),
        None => b,
    }
}

pub open spec fn unwrapped(o: Option<Seq<char>>, fallback: Seq<char>) -> Seq<char> {
    match o {
        Some(t) => t,
        None => fallback,
    }
}

fn text_or_default(o: Option<String>, fallback: &str) -> (r: String)
    ensures
        r@ == unwrapped(text::opt_text(o), fallback@),
{
    match o {
        Some(s) => s,
        None => fallback.to_owned(),
    }
}

/// The name of the theme to use: the configuration's, else the one that the settings choose.
pub open spec fn wanted_name(
    settings: ZedSettings,
    config: AppConfig,
    appearance: WindowAppearance,
) -> Option<Seq<char>> {
    or_else(
        text::opt_text(config.theme.name),
        match settings.theme {
            Some(selection) => Some(selected_name(selection, appearance)),
            None => None,
        },
    )
}

/// The theme under a name, with the built-in one in place of one that is not known.
pub open spec fn named_entry(
    catalog: Map<Seq<char>, EntryModel>,
    name: Option<Seq<char>>,
) -> EntryModel {
    if name is Some && catalog.contains_key(normalized(name->0)) {
        catalog[normalized(name->0)]
    } else {
        EntryModel {
            palette: theme::default_palette(),
            syntax_styles: Seq::empty(),
            syntax_default_color: DEFAULT_TEXT_PRIMARY,
        }
    }
}

/// A colour of the configuration where it is one, else the palette's.
pub open spec fn explicit_color(text: Option<Seq<char>>, fallback: u32) -> u32 {
    if text is Some && color::color_text_ok(text->0) && color::color_value(text->0) is Some {
        color::color_value(text->0)->0
    } else {
        fallback
    }
}

/// A colour of the configuration where it is one, else the fallback.
pub fn config_color(color: &Option<String>, fallback: u32) -> (r: u32)
    ensures
        r == explicit_color(text::opt_text(*color), fallback),
{
    match color {
        Some(t) => if color_text_is_ok(t.as_str()) {
            match parse_color_rgb(t.as_str()) {
                Some(c) => c,
                None => fallback,
            }
        } else {
            fallback
        },
        None => fallback,
    }
}

/// A palette with the explicit colours of the configuration.
pub open spec fn explicit_palette(palette: Palette, config: ThemeConfig) -> Palette {
    Palette {
        bg: explicit_color(text::opt_text(config.bg), palette.bg),
        border: explicit_color(text::opt_text(config.border), palette.border),
        selected_row: explicit_color(text::opt_text(config.selected_row), palette.selected_row),
        hover_row: explicit_color(text::opt_text(config.hover_row), palette.hover_row),
        text_primary: explicit_color(text::opt_text(config.text_primary), palette.text_primary),
        text_secondary: explicit_color(
            text::opt_text(config.text_secondary),
            palette.text_secondary,
        ),
        text_dim: explicit_color(text::opt_text(config.text_dim), palette.text_dim),
        status_bar_bg: explicit_color(text::opt_text(config.status_bar_bg), palette.status_bar_bg),
        match_highlight: explicit_color(
            text::opt_text(config.match_highlight),
            palette.match_highlight,
        ),
        preview_bg: explicit_color(text::opt_text(config.preview_bg), palette.preview_bg),
    }
}

fn override_palette(palette: Palette, config: &ThemeConfig) -> (r: Palette)
    ensures
        r == explicit_palette(palette, *config),
{
    Palette {
        bg: config_color(&config.bg, palette.bg),
        border: config_color(&config.border, palette.border),
        selected_row: config_color(&config.selected_row, palette.selected_row),
        hover_row: config_color(&config.hover_row, palette.hover_row),
        text_primary: config_color(&config.text_primary, palette.text_primary),
        text_secondary: config_color(&config.text_secondary, palette.text_secondary),
        text_dim: config_color(&config.text_dim, palette.text_dim),
        status_bar_bg: config_color(&config.status_bar_bg, palette.status_bar_bg),
        match_highlight: config_color(&config.match_highlight, palette.match_highlight),
        preview_bg: config_color(&config.preview_bg, palette.preview_bg),
    }
}

/// A font family: the specific one of the configuration, else its general one, else that of the
/// settings, else the default.
pub open spec fn wanted_family(
    specific: Option<String>,
    general: Option<String>,
    synced: Option<String>,
    fallback: Seq<char>,
) -> Seq<char> {
    unwrapped(
        or_else(
            or_else(text::opt_text(specific), text::opt_text(general)),
            text::opt_text(synced),
        ),
        fallback,
    )
}

fn font_family(
    specific: &Option<String>,
    general: &Option<String>,
    synced: &Option<String>,
    fallback: &str,
) -> (r: String)
    ensures
        r@ == wanted_family(*specific, *general, *synced, fallback@),
{
    let configured = text_or_else(copy_opt(specific), general);
    text_or_default(text_or_else(configured, synced), fallback)
}

/// The theme for the given settings, catalog, appearance and configuration.
pub open spec fn resolved(
    settings: ZedSettings,
    catalog: Map<Seq<char>, EntryModel>,
    appearance: WindowAppearance,
    config: AppConfig,
) -> theme::ThemeModel {
    let entry = named_entry(catalog, wanted_name(settings, config, appearance));
    theme::ThemeModel {
        palette: explicit_palette(entry.palette, config.theme),
        ui_font_family: wanted_family(
            config.font.ui_family,
            config.font.family,
            settings.ui_font_family,
            DEFAULT_UI_FONT_FAMILY@,
        ),
        buffer_font_family: wanted_family(
            config.font.buffer_family,
            config.font.family,
            settings.buffer_font_family,
            DEFAULT_BUFFER_FONT_FAMILY@,
        ),
        ui_font_size: or_else(
            or_else(config.font.ui_size, config.font.size),
            settings.ui_font_size,
        ),
        buffer_font_size: or_else(
            or_else(config.font.buffer_size, config.font.size),
            settings.buffer_font_size,
        ),
        syntax_styles: entry.syntax_styles,
        syntax_default_color: entry.syntax_default_color,
    }
}

/// Resolves the theme that Zed's settings and the configuration ask for. Explicit values of the
/// configuration win over the settings.
pub fn resolve_from_zed_settings(
    settings: &ZedSettings,
    catalog: &ThemeCatalog,
    appearance: WindowAppearance,
    config: &AppConfig,
) -> (r: ResolvedTheme)
    ensures
        r@ == resolved(*settings, catalog@, appearance, *config),
{
    let selected = match &settings.theme {
        Some(selection) => Some(resolve_theme_name(selection, appearance)),
        None => None,
    };
    let name = text_or_else(copy_opt(&config.theme.name), &selected);
    let entry = match &name {
        Some(name) => catalog.get(normalize_name(name.as_str()).as_str()),
        None => None,
    };
    let (palette, syntax_styles, syntax_default_color) = match entry {
        Some(entry) => (
            entry.palette,
            copy_styles(&entry.syntax_styles),
            entry.syntax_default_color,
        ),
        None => (Palette::default(), Vec::new(), DEFAULT_TEXT_PRIMARY),
    };
    assert(entry is None ==> theme::styles_view(syntax_styles@) =~= Seq::empty());
    let font: &FontConfig = &config.font;
    ResolvedTheme {
        palette: override_palette(palette, &config.theme),
        ui_font_family: font_family(
            &font.ui_family,
            &font.family,
            &settings.ui_font_family,
            DEFAULT_UI_FONT_FAMILY,
        ),
        buffer_font_family: font_family(
            &font.buffer_family,
            &font.family,
            &settings.buffer_font_family,
            DEFAULT_BUFFER_FONT_FAMILY,
        ),
        ui_font_size: number_or_else(
            number_or_else(font.ui_size, font.size),
            settings.ui_font_size,
        ),
        buffer_font_size: number_or_else(
            number_or_else(font.buffer_size, font.size),
            settings.buffer_font_size,
        ),
        syntax_styles,
        syntax_default_color,
    }
}

/// The settings that count: none where the configuration does not follow Zed, or where Zed's could
/// not be loaded.
pub open spec fn synced_settings(config: AppConfig, settings: Option<ZedSettings>) -> ZedSettings {
    if config.sync_zed_settings && settings is Some {
        settings->0
    } else {
        no_settings()
    }
}

/// What the theme in force is made from.
pub struct SyncInput {
    pub config: AppConfig,
    pub settings: Option<ZedSettings>,
    pub catalog: Map<Seq<char>, EntryModel>,
    pub appearance: WindowAppearance,
}

/// The theme in force after the one that is asked for replaced it.
pub open spec fn synced(active: theme::ActiveModel, input: SyncInput) -> theme::ActiveModel {
    theme::ActiveModel {
        theme: resolved(
            synced_settings(input.config, input.settings),
            input.catalog,
            input.appearance,
            input.config,
        ),
        version: active.version.wrapping_add(1),
    }
}

/// The theme in force after a sequence of replacements.
pub open spec fn synced_all(
    active: theme::ActiveModel,
    inputs: Seq<SyncInput>,
) -> theme::ActiveModel
    decreases inputs.len(),
{
    if inputs.len() == 0 {
        active
    } else {
        synced(synced_all(active, inputs.drop_last()), inputs.last())
    }
}

/// With each replacement the version grows by one, whatever it was made from; only at the end of
/// its range it starts anew.
pub proof fn law_version_counts_replacements(active: theme::ActiveModel, inputs: Seq<SyncInput>)
    ensures
        synced_all(active, inputs).version == (active.version + inputs.len()) % 0x1_0000_0000_0000_0000,
        active.version + inputs.len() <= u64::MAX ==> synced_all(active, inputs).version
            == active.version + inputs.len(),
    decreases inputs.len(),
{
    if inputs.len() > 0 {
        law_version_counts_replacements(active, inputs.drop_last());
    }
}

/// Puts the theme in force that the configuration asks for. `settings` are Zed's, if they could
/// be loaded.
pub fn sync_from_config(
    active: &mut ActiveTheme,
    config: &AppConfig,
    settings: Option<ZedSettings>,
    catalog: &ThemeCatalog,
    appearance: WindowAppearance,
)
    ensures
        final(active)@ == synced(
            old(active)@,
            SyncInput { config: *config, settings, catalog: catalog@, appearance },
        ),
{
    let synced = match settings {
        Some(settings) => if config.sync_zed_settings {
            settings
        } else {
            ZedSettings::default()
        },
        None => ZedSettings::default(),
    };
    active.replace(resolve_from_zed_settings(&synced, catalog, appearance, config));
}

/// Without explicit values, and without settings to follow, the built-in theme is in force.
pub proof fn law_nothing_configured_is_default(
    settings: Option<ZedSettings>,
    catalog: Map<Seq<char>, EntryModel>,
    appearance: WindowAppearance,
    config: AppConfig,
)
    requires
        config.font == crate::config::no_font_config(),
        config.theme == crate::config::no_theme_config(),
        !config.sync_zed_settings || settings is None,
    ensures
        resolved(synced_settings(config, settings), catalog, appearance, config)
            == theme::default_theme(),
{
}

/// Explicit values of the configuration win over whatever the settings say.
pub proof fn law_explicit_values_win(
    settings: ZedSettings,
    catalog: Map<Seq<char>, EntryModel>,
    appearance: WindowAppearance,
    config: AppConfig,
)
    ensures
        config.theme.name matches Some(name) ==> {
            let theme = resolved(settings, catalog, appearance, config);
            theme.syntax_styles == named_entry(catalog, Some(name@)).syntax_styles
                && theme.palette == explicit_palette(
                named_entry(catalog, Some(name@)).palette,
                config.theme,
            )
        },
        config.font.ui_family matches Some(family) ==> resolved(
            settings,
            catalog,
            appearance,
            config,
        ).ui_font_family == family@,
        config.font.buffer_family matches Some(family) ==> resolved(
            settings,
            catalog,
            appearance,
            config,
        ).buffer_font_family == family@,
        config.font.ui_size matches Some(size) ==> resolved(
            settings,
            catalog,
            appearance,
            config,
        ).ui_font_size == Some(size),
        config.font.buffer_size matches Some(size) ==> resolved(
            settings,
            catalog,
            appearance,
            config,
        ).buffer_font_size == Some(size),
{
}

/// The value under a key is the first one with that key.
pub proof fn law_first_field_counts(
    before: Seq<(String, StyleValue)>,
    name: String,
    value: StyleValue,
    after: Seq<(String, StyleValue)>,
)
    requires
        forall|i: int| 0 <= i < before.len() ==> (#[trigger] before[i]).0@ != name@,
    ensures
        field(before + seq![(name, value)] + after, name@) == Some(value),
        (forall|i: int| 0 <= i < after.len() ==> (#[trigger] after[i]).0@ != name@) ==> field(
            before + after,
            name@,
        ) is None,
    decreases before.len(),
{
    let fields = before + seq![(name, value)] + after;
    let fewer = before + after;
    lemma_field_index(fields, name@, before.len() as int);
    if forall|i: int| 0 <= i < after.len() ==> (#[trigger] after[i]).0@ != name@ {
        assert forall|i: int| 0 <= i < fewer.len() implies (#[trigger] fewer[i]).0@ != name@ by {
            if i < before.len() {
                assert(fewer[i] == before[i]);
            } else {
                assert(fewer[i] == after[i - before.len()]);
            }
        }
        lemma_field_index(fewer, name@, fewer.len() as int);
    }
}

/// The first colour that can be read under some keys of a style.
pub open spec fn first_readable(style: StyleValue, keys: Seq<Seq<char>>, fallback: u32) -> u32
    decreases keys.len(),
{
    if keys.len() == 0 {
        fallback
    } else {
        match style {
            StyleValue::Object(fields) => match field(fields@, keys[0]) {
                Some(StyleValue::Text(t)) => match color::color_value(t@) {
                    Some(c) => c,
                    None => first_readable(style, keys.skip(1), fallback),
                },
                _ => first_readable(style, keys.skip(1), fallback),
            },
            _ => fallback,
        }
    }
}

proof fn lemma_readable(style: StyleValue, a: Seq<char>, b: Seq<char>, c: Seq<char>, d: u32)
    ensures
        chain_color(style, a, b, c, d) == first_readable(style, seq![a, b, c], d),
        chain_color(style, a, b, b, d) == first_readable(style, seq![a, b], d),
        chain_color(style, a, a, a, d) == first_readable(style, seq![a], d),
{
    let none = Seq::<Seq<char>>::empty();
    assert(seq![a, b, c].skip(1) =~= seq![b, c]);
    assert(seq![b, c].skip(1) =~= seq![c]);
    assert(seq![a, b].skip(1) =~= seq![b]);
    assert(seq![c].skip(1) =~= none);
    assert(seq![b].skip(1) =~= none);
    assert(seq![a].skip(1) =~= none);
    reveal_with_fuel(first_readable, 4);
}

/// Each colour of the palette is the first that can be read under the keys for it.
pub proof fn law_palette_keys(style: StyleValue)
    ensures
        ({
            let p = palette_of(style);
            &&& p.bg == first_readable(
                style,
                seq!["background"@, "surface.background"@, "editor.background"@],
                0x1C1C1E,
            )
            &&& p.border == first_readable(style, seq!["border"@], 0x2F2F31)
            &&& p.selected_row == first_readable(
                style,
                seq!["element.selected"@, "element.active"@],
                0x2C3F59,
            )
            &&& p.hover_row == first_readable(style, seq!["element.hover"@], 0x2A2A2C)
            &&& p.text_primary == first_readable(style, seq!["text"@], 0xFFFFFF)
            &&& p.text_secondary == first_readable(
                style,
                seq!["text.muted"@, "icon.muted"@],
                0x8E8E93,
            )
            &&& p.text_dim == first_readable(
                style,
                seq!["text.placeholder"@, "text.disabled"@, "icon.placeholder"@],
                0x6C6C70,
            )
            &&& p.status_bar_bg == first_readable(
                style,
                seq!["status_bar.background"@, "title_bar.background"@],
                0x18181A,
            )
            &&& p.match_highlight == first_readable(
                style,
                seq![
                    "search.match_background"@,
                    "search.active_match_background"@,
                    "text.accent"@,
                ],
                0x4A9EFF,
            )
            &&& p.preview_bg == first_readable(
                style,
                seq!["editor.background"@, "surface.background"@],
                0x161618,
            )
            &&& entry_of(style).palette == p
            &&& entry_of(style).syntax_default_color == first_readable(
                style,
                seq!["editor.foreground"@, "text"@],
                0xFFFFFF,
            )
        }),
{
    lemma_readable(
        style,
        "background"@,
        "surface.background"@,
        "editor.background"@,
        DEFAULT_BG,
    );
    lemma_readable(style, "border"@, "border"@, "border"@, DEFAULT_BORDER);
    lemma_readable(
        style,
        "element.selected"@,
        "element.active"@,
        "element.active"@,
        DEFAULT_SELECTED_ROW,
    );
    lemma_readable(
        style,
        "element.hover"@,
        "element.hover"@,
        "element.hover"@,
        DEFAULT_HOVER_ROW,
    );
    lemma_readable(style, "text"@, "text"@, "text"@, DEFAULT_TEXT_PRIMARY);
    lemma_readable(
        style,
        "text.muted"@,
        "icon.muted"@,
        "icon.muted"@,
        DEFAULT_TEXT_SECONDARY,
    );
    lemma_readable(
        style,
        "text.placeholder"@,
        "text.disabled"@,
        "icon.placeholder"@,
        DEFAULT_TEXT_DIM,
    );
    lemma_readable(
        style,
        "status_bar.background"@,
        "title_bar.background"@,
        "title_bar.background"@,
        DEFAULT_STATUS_BAR_BG,
    );
    lemma_readable(
        style,
        "search.match_background"@,
        "search.active_match_background"@,
        "text.accent"@,
        DEFAULT_MATCH_HIGHLIGHT,
    );
    lemma_readable(
        style,
        "editor.background"@,
        "surface.background"@,
        "surface.background"@,
        DEFAULT_PREVIEW_BG,
    );
    lemma_readable(style, "editor.foreground"@, "text"@, "text"@, DEFAULT_TEXT_PRIMARY);
}

/// A field of the syntax section is a style: an object, under any name but that of a colour.
pub open spec fn is_style(f: (String, StyleValue)) -> bool {
    f.1 is Object && f.0@ != "background_color"@
}

/// The number of styles among the first `n` fields.
pub open spec fn styles_before(fields: Seq<(String, StyleValue)>, n: int) -> int
    decreases n,
{
    if n <= 0 {
        0
    } else {
        styles_before(fields, n - 1) + if is_style(fields[n - 1]) {
            1int
        } else {
            0
        }
    }
}

proof fn lemma_styles(fields: Seq<(String, StyleValue)>, n: int)
    requires
        0 <= n <= fields.len(),
    ensures
        styles_of_fields(fields.take(n)).len() == styles_before(fields, n),
        forall|i: int|
            0 <= i < n && is_style(#[trigger] fields[i]) ==> 0 <= styles_before(fields, i)
                < styles_before(fields, n) && styles_of_fields(fields.take(n))[styles_before(
                fields,
                i,
            )] == (fields[i].0@, style_of_fields((fields[i].1->Object_0)@)),
    decreases n,
{
    if n > 0 {
        lemma_styles(fields, n - 1);
        let now = fields.take(n);
        assert(now.drop_last() =~= fields.take(n - 1));
        assert(now.last() == fields[n - 1]);
        let earlier = styles_of_fields(fields.take(n - 1));
        assert forall|i: int| 0 <= i < n && is_style(#[trigger] fields[i]) implies 0
            <= styles_before(fields, i) < styles_before(fields, n) && styles_of_fields(
            now,
        )[styles_before(fields, i)] == (
            fields[i].0@,
            style_of_fields((fields[i].1->Object_0)@),
        ) by {
            if i < n - 1 {
                assert(earlier[styles_before(fields, i)] == (
                    fields[i].0@,
                    style_of_fields((fields[i].1->Object_0)@),
                ));
            }
        }
    } else {
        assert(fields.take(0) =~= Seq::empty());
    }
}

/// The styles of a theme are the objects in its syntax section, each under its name and in their
/// order, with the colours and the font features that stand there.
pub proof fn law_syntax_styles(
    style: Vec<(String, StyleValue)>,
    fields: Vec<(String, StyleValue)>,
    i: int,
)
    requires
        field(style@, "syntax"@) == Some(StyleValue::Object(fields)),
        0 <= i < fields@.len(),
        is_style(fields@[i]),
    ensures
        ({
            let styles = styles_of(StyleValue::Object(style));
            let at = styles_before(fields@, i);
            let inner = (fields@[i].1->Object_0)@;
            &&& styles.len() == styles_before(fields@, fields@.len() as int)
            &&& 0 <= at < styles.len()
            &&& styles[at].0 == fields@[i].0@
            &&& field(inner, "color"@) matches Some(StyleValue::Text(t)) ==> styles[at].1.color == Some(t@)
            &&& field(inner, "color"@) is None ==> styles[at].1.color is None
            &&& field(inner, "background_color"@) matches Some(StyleValue::Text(t)) ==> styles[at].1.background_color == Some(t@)
            &&& field(inner, "font_style"@) matches Some(StyleValue::Text(t)) ==> styles[at].1.font_style == Some(t@)
            &&& field(inner, "font_style"@) is None ==> styles[at].1.font_style is None
            &&& field(inner, "font_weight"@) matches Some(StyleValue::Number(n)) ==> styles[at].1.font_weight == Some(n)
            &&& field(inner, "font_weight"@) is None ==> styles[at].1.font_weight is None
        }),
{
    lemma_styles(fields@, fields@.len() as int);
    assert(fields@.take(fields@.len() as int) =~= fields@);
}

/// A colour is the one that a text writes, or a fallback where there is none or it writes none.
pub open spec fn is_written(got: u32, text: Option<String>, fallback: u32) -> bool {
    match text {
        Some(t) => if color::color_text_ok(t@) && color::color_value(t@) is Some {
            got == color::color_value(t@)->0
        } else {
            got == fallback
        },
        None => got == fallback,
    }
}

/// The theme that is resolved: the one that the configuration names, or else the one that the
/// settings choose, as the catalog holds it, under each colour that the configuration sets itself.
pub proof fn law_resolved_theme(
    settings: ZedSettings,
    catalog: Map<Seq<char>, EntryModel>,
    appearance: WindowAppearance,
    config: AppConfig,
    name: Seq<char>,
)
    requires
        config.theme.name matches Some(own) ==> name == own@,
        config.theme.name is None ==> (settings.theme matches Some(selection) && name
            == selected_name(selection, appearance)),
        catalog.contains_key(text::lowered(text::trim(name))),
    ensures
        ({
            let theme = resolved(settings, catalog, appearance, config);
            let entry = catalog[text::lowered(text::trim(name))];
            &&& theme.syntax_styles == entry.syntax_styles
            &&& theme.syntax_default_color == entry.syntax_default_color
            &&& is_written(theme.palette.bg, config.theme.bg, entry.palette.bg)
            &&& is_written(theme.palette.border, config.theme.border, entry.palette.border)
            &&& is_written(
                theme.palette.selected_row,
                config.theme.selected_row,
                entry.palette.selected_row,
            )
            &&& is_written(theme.palette.hover_row, config.theme.hover_row, entry.palette.hover_row)
            &&& is_written(
                theme.palette.text_primary,
                config.theme.text_primary,
                entry.palette.text_primary,
            )
            &&& is_written(
                theme.palette.text_secondary,
                config.theme.text_secondary,
                entry.palette.text_secondary,
            )
            &&& is_written(theme.palette.text_dim, config.theme.text_dim, entry.palette.text_dim)
            &&& is_written(
                theme.palette.status_bar_bg,
                config.theme.status_bar_bg,
                entry.palette.status_bar_bg,
            )
            &&& is_written(
                theme.palette.match_highlight,
                config.theme.match_highlight,
                entry.palette.match_highlight,
            )
            &&& is_written(
                theme.palette.preview_bg,
                config.theme.preview_bg,
                entry.palette.preview_bg,
            )
        }),
{
}

/// Without a theme of that name the built-in one is in force, and without a name too.
pub proof fn law_unknown_theme_is_default(
    settings: ZedSettings,
    catalog: Map<Seq<char>, EntryModel>,
    appearance: WindowAppearance,
    config: AppConfig,
)
    requires
        config.theme.name matches Some(own) ==> !catalog.contains_key(
            text::lowered(text::trim(own@)),
        ),
        config.theme.name is None ==> (settings.theme matches Some(selection)
            ==> !catalog.contains_key(
            text::lowered(text::trim(selected_name(selection, appearance))),
        )),
    ensures
        ({
            let theme = resolved(settings, catalog, appearance, config);
            &&& theme.syntax_styles.len() == 0
            &&& theme.syntax_default_color == 0xFFFFFF
            &&& is_written(theme.palette.bg, config.theme.bg, 0x1C1C1E)
            &&& is_written(theme.palette.border, config.theme.border, 0x2F2F31)
            &&& is_written(theme.palette.selected_row, config.theme.selected_row, 0x2C3F59)
            &&& is_written(theme.palette.hover_row, config.theme.hover_row, 0x2A2A2C)
            &&& is_written(theme.palette.text_primary, config.theme.text_primary, 0xFFFFFF)
            &&& is_written(theme.palette.text_secondary, config.theme.text_secondary, 0x8E8E93)
            &&& is_written(theme.palette.text_dim, config.theme.text_dim, 0x6C6C70)
            &&& is_written(theme.palette.status_bar_bg, config.theme.status_bar_bg, 0x18181A)
            &&& is_written(theme.palette.match_highlight, config.theme.match_highlight, 0x4A9EFF)
            &&& is_written(theme.palette.preview_bg, config.theme.preview_bg, 0x161618)
        }),
{
}

/// A font is the one that the configuration has for its place, else the one it has for both, else
/// that of the settings; and so is its size.
pub proof fn law_resolved_fonts(
    settings: ZedSettings,
    catalog: Map<Seq<char>, EntryModel>,
    appearance: WindowAppearance,
    config: AppConfig,
)
    ensures
        ({
            let theme = resolved(settings, catalog, appearance, config);
            let font = config.font;
            &&& font.ui_family matches Some(t) ==> theme.ui_font_family == t@
            &&& font.ui_family is None ==> (font.family matches Some(t) ==> theme.ui_font_family
                == t@)
            &&& font.ui_family is None && font.family is None ==> (
            settings.ui_font_family matches Some(t) ==> theme.ui_font_family == t@)
            &&& font.ui_family is None && font.family is None && settings.ui_font_family is None
                ==> theme.ui_font_family == ".ZedSans"@
            &&& font.buffer_family matches Some(t) ==> theme.buffer_font_family == t@
            &&& font.buffer_family is None ==> (
            font.family matches Some(t) ==> theme.buffer_font_family == t@)
            &&& font.buffer_family is None && font.family is None ==> (
            settings.buffer_font_family matches Some(t) ==> theme.buffer_font_family == t@)
            &&& font.buffer_family is None && font.family is None
                && settings.buffer_font_family is None ==> theme.buffer_font_family == ".ZedMono"@
            &&& font.ui_size is Some ==> theme.ui_font_size == font.ui_size
            &&& font.ui_size is None && font.size is Some ==> theme.ui_font_size == font.size
            &&& font.ui_size is None && font.size is None ==> theme.ui_font_size
                == settings.ui_font_size
            &&& font.buffer_size is Some ==> theme.buffer_font_size == font.buffer_size
            &&& font.buffer_size is None && font.size is Some ==> theme.buffer_font_size
                == font.size
            &&& font.buffer_size is None && font.size is None ==> theme.buffer_font_size
                == settings.buffer_font_size
        }),
{
}

/// With syncing off Zed's settings make no difference; with syncing on they are followed where they
/// could be loaded.
pub proof fn law_syncing(
    active: theme::ActiveModel,
    input: SyncInput,
    other: Option<ZedSettings>,
)
    ensures
        !input.config.sync_zed_settings ==> synced(active, input) == synced(
            active,
            (SyncInput { settings: other, ..input }),
        ),
        input.config.sync_zed_settings ==> (input.settings matches Some(settings) ==> synced(
            active,
            input,
        ).theme == resolved(settings, input.catalog, input.appearance, input.config)),
{
}

/// White space around a theme's name and the case of its ASCII letters make no difference.
pub proof fn law_theme_names(before: Seq<char>, name: Seq<char>, after: Seq<char>, other: Seq<char>)
    requires
        text::all_white(before),
        text::all_white(after),
        name.len() > 0,
        !text::is_white(name[0]),
        !text::is_white(name.last()),
        vstd::utf8::is_ascii_chars(name),
        vstd::utf8::is_ascii_chars(other),
        text::trim(other) == other,
        text::ascii_lowercase(other) == text::ascii_lowercase(name),
    ensures
        normalized(before + name + after) == normalized(other),
        normalized(name) == text::ascii_lowercase(name),
{
    text::lemma_trim_around(before, name, after);
    text::lemma_trim_fixed(name);
}

/// Theme files are put into the catalog one after the other; one that cannot be read adds nothing.
/// A theme that no file names stays as it was.
pub proof fn law_files_in_their_order(
    catalog: Map<Seq<char>, EntryModel>,
    families: Seq<Option<Vec<ThemeVariant>>>,
    last: Vec<ThemeVariant>,
    key: Seq<char>,
)
    ensures
        with_families(catalog, families.push(Some(last))) == with_family(
            with_families(catalog, families),
            last@,
        ),
        with_families(catalog, families.push(None)) == with_families(catalog, families),
        (forall|i: int|
            0 <= i < families.len() ==> ((#[trigger] families[i]) matches Some(themes)
                ==> !names_key(themes@, key))) ==> with_families(catalog, families).contains_key(key)
            == catalog.contains_key(key) && (catalog.contains_key(key) ==> with_families(
            catalog,
            families,
        )[key] == catalog[key]),
    decreases families.len(),
{
    assert(families.push(Some(last)).drop_last() =~= families);
    assert(families.push(None).drop_last() =~= families);
    if families.len() > 0 && (forall|i: int|
        0 <= i < families.len() ==> ((#[trigger] families[i]) matches Some(themes) ==> !names_key(
            themes@,
            key,
        ))) {
        let front = families.drop_last();
        assert forall|i: int| 0 <= i < front.len() implies ((#[trigger] front[i]) matches Some(
            themes,
        ) ==> !names_key(themes@, key)) by {
            assert(front[i] == families[i]);
        }
        law_files_in_their_order(catalog, front, last, key);
        assert(families[families.len() - 1] == families.last());
        if let Some(themes) = families.last() {
            assert forall|i: int| 0 <= i < themes@.len() implies normalized(
                (#[trigger] themes@[i]).name@,
            ) != key by {
                assert(!names_key(themes@, key));
            }
            law_later_theme_wins(with_families(catalog, front), themes@, key);
        }
    }
}

/// One file that cannot be read is enough for a failure, and there is none without such a file.
pub proof fn law_unreadable_files(families: Seq<Option<Vec<ThemeVariant>>>, i: int)
    requires
        0 <= i < families.len(),
    ensures
        families[i] is None ==> any_failed(families),
        any_failed(families) ==> !(forall|k: int|
            0 <= k < families.len() ==> (#[trigger] families[k]) is Some),
{
}

} // verus!

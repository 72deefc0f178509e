//! Syntax highlighting with syntect and the extra syntaxes of two-face.
//!
//! Each line is highlighted on its own, with a fresh highlighter, so that the
//! interleaved added and removed lines of a diff never share parse state. The
//! cost is that constructs spanning several lines (block comments) are not
//! carried across lines.

use vstd::prelude::*;
use syntect::highlighting::{Style, Theme};
use syntect::parsing::{SyntaxReference, SyntaxSet};
use crate::paths::{ext_or_empty, extension_chars, file_name_chars, file_name_spec};
use crate::text::{owned, string_of};

verus! {

#[verifier::external_type_specification]
#[verifier::external_body]
pub struct ExSyntaxSet(SyntaxSet);

#[verifier::external_type_specification]
#[verifier::external_body]
pub struct ExSyntaxReference(SyntaxReference);

#[verifier::external_type_specification]
#[verifier::external_body]
pub struct ExTheme(Theme);

#[verifier::external_type_specification]
#[verifier::external_body]
pub struct ExStyle(Style);

/// A coloured piece of a highlighted line.
#[derive(Debug)]
pub struct Span {
    pub color: (u8, u8, u8),
    pub bold: bool,
    pub italic: bool,
    pub text: String,
}

/// The texts of the spans, concatenated.
pub open spec fn spans_text(spans: Seq<Span>) -> Seq<char>
    decreases spans.len(),
{
    if spans.len() == 0 {
        Seq::empty()
    } else {
        spans_text(spans.drop_last()) + spans.last().text@
    }
}

/// A highlighting of a line: spans whose texts give back the line, and none
/// for an empty line.
pub open spec fn highlights(spans: Seq<Span>, text: Seq<char>) -> bool {
    spans_text(spans) == text && (text.len() == 0 ==> spans.len() == 0)
}

/// The texts of highlighter output, concatenated.
pub open spec fn pieces_text(pieces: Seq<(Style, &str)>) -> Seq<char>
    decreases pieces.len(),
{
    if pieces.len() == 0 {
        Seq::empty()
    } else {
        pieces_text(pieces.drop_last()) + pieces.last().1@
    }
}

/// The names under which syntect's `ThemeSet::load_defaults` documents its themes.
pub open spec fn is_default_theme_name(name: Seq<char>) -> bool {
    ||| name == "base16-ocean.dark"@
    ||| name == "base16-eighties.dark"@
    ||| name == "base16-mocha.dark"@
    ||| name == "base16-ocean.light"@
    ||| name == "InspiredGitHub"@
    ||| name == "Solarized (dark)"@
    ||| name == "Solarized (light)"@
}

/// Whether a syntax set holds the "Plain Text" syntax, without which
/// `SyntaxSet::find_syntax_plain_text` panics.
pub uninterp spec fn holds_plain_text(ss: SyntaxSet) -> bool;

/// `two_face::syntax::extra_newlines()`: syntect's syntaxes plus bat's extra
/// ones, for lines that keep their newline. It holds syntect's "Plain Text"
/// syntax; nothing more is stated of its content.
#[verifier::external_body]
fn extra_newline_syntaxes() -> (ss: SyntaxSet)
    ensures
        holds_plain_text(ss),
{
    two_face::syntax::extra_newlines()
}

/// The theme stored under `name` in syntect's default theme set, which is
/// a fixed set loaded from data built into syntect.
pub uninterp spec fn default_theme_of(name: Seq<char>) -> Theme;

/// `ThemeSet::load_defaults().themes.get(name).cloned()`: present for every
/// name that syntect documents as a key of its default set, and then the
/// theme stored under that name.
#[verifier::external_body]
fn default_theme(name: &str) -> (t: Option<Theme>)
    ensures
        is_default_theme_name(name@) ==> t is Some,
        t matches Some(th) ==> th == default_theme_of(name@),
{
    syntect::highlighting::ThemeSet::load_defaults().themes.get(name).cloned()
}

/// What `SyntaxSet::find_syntax_by_extension` finds in a set for an
/// extension: a function of the two alone.
pub uninterp spec fn syntax_by_extension_of(ss: SyntaxSet, ext: Seq<char>) -> Option<SyntaxReference>;

/// `SyntaxSet::find_syntax_by_extension`: the last syntax listing the extension
/// (compared ignoring ASCII case), if any; named, not described.
#[verifier::external_body]
fn syntax_by_extension<'a>(ss: &'a SyntaxSet, ext: &str) -> (r: Option<&'a SyntaxReference>)
    ensures
        match r {
            Some(s) => syntax_by_extension_of(*ss, ext@) == Some(*s),
            None => syntax_by_extension_of(*ss, ext@) is None,
        },
{
    ss.find_syntax_by_extension(ext)
}

/// What `SyntaxSet::find_syntax_by_token` finds in a set for a token: a
/// function of the two alone.
pub uninterp spec fn syntax_by_token_of(ss: SyntaxSet, token: Seq<char>) -> Option<SyntaxReference>;

/// `SyntaxSet::find_syntax_by_token`: by extension, else by name ignoring
/// ASCII case; named, not described.
#[verifier::external_body]
fn syntax_by_token<'a>(ss: &'a SyntaxSet, token: &str) -> (r: Option<&'a SyntaxReference>)
    ensures
        match r {
            Some(s) => syntax_by_token_of(*ss, token@) == Some(*s),
            None => syntax_by_token_of(*ss, token@) is None,
        },
{
    ss.find_syntax_by_token(token)
}

/// The "Plain Text" syntax of a set.
pub uninterp spec fn plain_text_of(ss: SyntaxSet) -> SyntaxReference;

/// `SyntaxSet::find_syntax_plain_text`: the "Plain Text" syntax of a set that
/// holds one (syntect panics on a set without it).
#[verifier::external_body]
fn plain_text_syntax<'a>(ss: &'a SyntaxSet) -> (r: &'a SyntaxReference)
    requires
        holds_plain_text(*ss),
    ensures
        *r == plain_text_of(*ss),
{
    ss.find_syntax_plain_text()
}

/// What a fresh `HighlightLines` for `syntax` and `theme` makes of one line
/// with the set `ss`: the styled pieces, or `None` when it fails. A function
/// of the four alone.
pub uninterp spec fn highlight_line_of(
    syntax: SyntaxReference,
    theme: Theme,
    ss: SyntaxSet,
    text: Seq<char>,
) -> Option<Seq<(Style, Seq<char>)>>;

/// A syntax that one of the set's own lookups gives: by extension, by
/// token, or its "Plain Text" syntax. Only such a syntax is highlighted with
/// the set, since syntect's parser panics on a syntax whose contexts the set
/// does not hold.
pub open spec fn from_set(ss: SyntaxSet, syntax: SyntaxReference) -> bool {
    ||| syntax == plain_text_of(ss)
    ||| exists|e: Seq<char>| #[trigger] syntax_by_extension_of(ss, e) == Some(syntax)
    ||| exists|t: Seq<char>| #[trigger] syntax_by_token_of(ss, t) == Some(syntax)
}

/// `HighlightLines::new(syntax, theme).highlight_line(text, ss)`, for a
/// syntax of the set `ss`: the styled pieces (named), which syntect documents
/// to concatenate back to the line.
#[verifier::external_body]
fn highlight_pieces<'b>(
    syntax: &SyntaxReference,
    theme: &Theme,
    ss: &SyntaxSet,
    text: &'b str,
) -> (r: Option<Vec<(Style, &'b str)>>)
    requires
        from_set(*ss, *syntax),
    ensures
        r matches Some(v) ==> pieces_text(v@) == text@,
        match (r, highlight_line_of(*syntax, *theme, *ss, text@)) {
            (Some(v), Some(ps)) => v@.len() == ps.len() && forall|i: int|
                0 <= i < v@.len() ==> (#[trigger] v@[i]).0 == ps[i].0 && v@[i].1@ == ps[i].1,
            (None, None) => true,
            _ => false,
        },
{
    let mut h = syntect::easy::HighlightLines::new(syntax, theme);
    match h.highlight_line(text, ss) {
        Ok(v) => Some(v),
        Err(_) => None,
    }
}

/// The foreground colour's red, green and blue, and whether the font style
/// holds BOLD and ITALIC, of a syntect style.
pub uninterp spec fn style_parts_of(style: Style) -> ((u8, u8, u8), bool, bool);

/// The foreground colour and the bold and italic flags of a syntect style.
#[verifier::external_body]
fn style_parts(style: &Style) -> (r: ((u8, u8, u8), bool, bool))
    ensures
        r == style_parts_of(*style),
{
    (
        (style.foreground.r, style.foreground.g, style.foreground.b),
        style.font_style.contains(syntect::highlighting::FontStyle::BOLD),
        style.font_style.contains(syntect::highlighting::FontStyle::ITALIC),
    )
}

/// The highlighter: a syntax set and one theme.
pub struct Highlighter {
    syntaxes: SyntaxSet,
    theme: Theme,
}

/// A span as its colour, bold and italic flags and text.
pub open spec fn span_v(s: Span) -> ((u8, u8, u8), bool, bool, Seq<char>) {
    (s.color, s.bold, s.italic, s.text@)
}

pub open spec fn spans_v(spans: Seq<Span>) -> Seq<((u8, u8, u8), bool, bool, Seq<char>)> {
    spans.map_values(|s: Span| span_v(s))
}

/// A styled piece as a span: the style's foreground and flags, and the text.
pub open spec fn piece_span(p: (Style, Seq<char>)) -> ((u8, u8, u8), bool, bool, Seq<char>) {
    (style_parts_of(p.0).0, style_parts_of(p.0).1, style_parts_of(p.0).2, p.1)
}

/// The spans of one line: none for an empty line; else each piece that
/// syntect gives, in the style's colour and flags; when syntect fails, the
/// whole line as one plain span in the default text colour.
pub open spec fn line_spec(ss: SyntaxSet, theme: Theme, syntax: SyntaxReference, text: Seq<char>) -> Seq<
    ((u8, u8, u8), bool, bool, Seq<char>),
> {
    if text.len() == 0 {
        Seq::empty()
    } else {
        match highlight_line_of(syntax, theme, ss, text) {
            Some(ps) => ps.map_values(|p: (Style, Seq<char>)| piece_span(p)),
            None => seq![((31u8, 35u8, 40u8), false, false, text)],
        }
    }
}

/// The file name of a path, or the empty text when it has none.
pub open spec fn name_or_empty(path: Seq<char>) -> Seq<char> {
    match file_name_spec(path) {
        Some(n) => n,
        None => Seq::empty(),
    }
}

/// The syntax for a file: by its extension, else by its file name as a
/// token, else plain text.
pub open spec fn syntax_for_spec(ss: SyntaxSet, path: Seq<char>) -> SyntaxReference {
    match syntax_by_extension_of(ss, ext_or_empty(path)) {
        Some(s) => s,
        None => match syntax_by_token_of(ss, name_or_empty(path)) {
            Some(s) => s,
            None => plain_text_of(ss),
        },
    }
}

/// The name of syntect's default light theme.
pub open spec fn light_theme_name() -> Seq<char> {
    "InspiredGitHub"@
}

/// The name of syntect's default dark theme.
pub open spec fn dark_theme_name() -> Seq<char> {
    "base16-ocean.dark"@
}

impl Highlighter {
    /// The syntax set holds "Plain Text", so a file always finds a syntax.
    #[verifier::type_invariant]
    spec fn set_has_plain_text(self) -> bool {
        holds_plain_text(self.syntaxes)
    }

    /// The syntax set the highlighter searches.
    pub closed spec fn syntax_set(&self) -> SyntaxSet {
        self.syntaxes
    }

    /// The theme the highlighter colours with.
    pub closed spec fn theme_used(&self) -> Theme {
        self.theme
    }

    /// The spans that a code line of the file at `path` gets.
    pub open spec fn code_spans(&self, path: Seq<char>, text: Seq<char>) -> Seq<((u8, u8, u8), bool, bool, Seq<char>)> {
        line_spec(self.syntax_set(), self.theme_used(), syntax_for_spec(self.syntax_set(), path), text)
    }

    /// A highlighter with the light theme.
    pub fn new() -> (h: Highlighter)
        ensures
            h.theme_used() == default_theme_of(light_theme_name()),
    {
        Self::with_theme(false)
    }

    /// A highlighter with the dark theme.
    pub fn with_dark() -> (h: Highlighter)
        ensures
            h.theme_used() == default_theme_of(dark_theme_name()),
    {
        Self::with_theme(true)
    }

    fn with_theme(dark: bool) -> (h: Highlighter)
        ensures
            h.theme_used() == default_theme_of(if dark { dark_theme_name() } else { light_theme_name() }),
    {
        let syntaxes = extra_newline_syntaxes();
        let name = if dark {
            "base16-ocean.dark"
        } else {
            "InspiredGitHub"
        };
        proof {
            reveal_strlit("base16-ocean.dark");
            reveal_strlit("InspiredGitHub");
        }
        let theme = match default_theme(name) {
            Some(t) => t,
            None => vstd::pervasive::unreached(),
        };
        Highlighter { syntaxes, theme }
    }

    /// The syntax for a file: by its extension, else by its file name as a
    /// token, else plain text.
    pub fn syntax_for<'a>(&'a self, path: &str) -> (r: &'a SyntaxReference)
        ensures
            *r == syntax_for_spec(self.syntax_set(), path@),
            from_set(self.syntax_set(), *r),
    {
        proof {
            use_type_invariant(self);
        }
        let ext = match extension_chars(path) {
            Some(e) => string_of(&e),
            None => String::new(),
        };
        assert(ext@ == ext_or_empty(path@));
        match syntax_by_extension(&self.syntaxes, ext.as_str()) {
            Some(s) => s,
            None => {
                let name = match file_name_chars(path) {
                    Some(n) => string_of(&n),
                    None => String::new(),
                };
                assert(name@ == name_or_empty(path@));
                match syntax_by_token(&self.syntaxes, name.as_str()) {
                    Some(s) => s,
                    None => plain_text_syntax(&self.syntaxes),
                }
            },
        }
    }

    /// Highlights one line: no spans for an empty line; otherwise each piece
    /// syntect gives, in its style's colour and flags, whose texts
    /// concatenate back to the line (one plain span in the default text
    /// colour when highlighting fails). The syntax is one of this
    /// highlighter's own, as `syntax_for` gives it.
    pub fn line(&self, syntax: &SyntaxReference, text: &str) -> (spans: Vec<Span>)
        requires
            from_set(self.syntax_set(), *syntax),
        ensures
            text@.len() == 0 ==> spans@.len() == 0,
            spans_text(spans@) == text@,
            highlights(spans@, text@),
            spans_v(spans@) == line_spec(self.syntax_set(), self.theme_used(), *syntax, text@),
    {
        if text.unicode_len() == 0 {
            assert(spans_text(Seq::<Span>::empty()) =~= text@);
            assert(spans_v(Seq::<Span>::empty()) =~= Seq::empty());
            return Vec::new();
        }
        match highlight_pieces(syntax, &self.theme, &self.syntaxes, text) {
            Some(pieces) => {
                let ghost ps = highlight_line_of(*syntax, self.theme, self.syntaxes, text@)->0;
                let mut out: Vec<Span> = Vec::new();
                for i in 0..pieces.len()
                    invariant
                        spans_text(out@) == pieces_text(pieces@.take(i as int)),
                        ps.len() == pieces@.len(),
                        forall|k: int| 0 <= k < pieces@.len() ==> (#[trigger] pieces@[k]).0 == ps[k].0 && pieces@[k].1@ == ps[k].1,
                        spans_v(out@) == ps.take(i as int).map_values(|p: (Style, Seq<char>)| piece_span(p)),
                {
                    let (color, bold, italic) = style_parts(&pieces[i].0);
                    let piece = owned(pieces[i].1);
                    let ghost before = out@;
                    out.push(Span { color, bold, italic, text: piece });
                    proof {
                        assert(out@.drop_last() =~= before);
                        assert(pieces@.take(i + 1).drop_last() =~= pieces@.take(i as int));
                        assert(pieces@.take(i + 1).last() == pieces@[i as int]);
                        assert(spans_text(out@) == spans_text(before) + out@.last().text@);
                        assert(spans_v(out@) =~= spans_v(before).push(span_v(out@.last())));
                        assert(ps.take(i + 1).map_values(|p: (Style, Seq<char>)| piece_span(p)) =~= ps.take(
                            i as int,
                        ).map_values(|p: (Style, Seq<char>)| piece_span(p)).push(piece_span(ps[i as int])));
                    }
                }
                assert(pieces@.take(pieces@.len() as int) =~= pieces@);
                assert(ps.take(ps.len() as int) =~= ps);
                out
            },
            None => {
                let mut out: Vec<Span> = Vec::new();
                out.push(Span { color: (31, 35, 40), bold: false, italic: false, text: owned(text) });
                assert(out@.drop_last() =~= Seq::<Span>::empty());
                assert(spans_text(out@) == spans_text(out@.drop_last()) + out@.last().text@);
                assert(spans_text(out@) =~= text@);
                assert(spans_v(out@) =~= seq![((31u8, 35u8, 40u8), false, false, text@)]);
                out
            },
        }
    }
}

} // verus!

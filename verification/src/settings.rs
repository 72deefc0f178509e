//! The view settings of the diff (wrapping, whitespace, line numbers, font
//! size) and the choice of light or dark colours.

use vstd::prelude::*;
use crate::text::chars_of;

verus! {

/// The settings the toolbar toggles.
#[derive(Clone, Copy, Debug)]
pub struct Settings {
    pub word_wrap: bool,
    /// Whether whitespace changes are shown; when off, the diff ignores them.
    pub show_space: bool,
    pub line_numbers: bool,
    pub font: i32,
}

/// The smallest and largest font sizes the buttons reach.
pub const MIN_FONT: i32 = 8;
pub const MAX_FONT: i32 = 28;

impl Settings {
    /// No wrapping, whitespace shown, line numbers on, 12 point.
    pub fn new() -> (s: Settings)
        ensures
            !s.word_wrap,
            s.show_space,
            s.line_numbers,
            s.font == 12,
    {
        Settings { word_wrap: false, show_space: true, line_numbers: true, font: 12 }
    }

    /// Whether the diff is computed ignoring whitespace.
    pub fn ignore_whitespace(&self) -> (b: bool)
        ensures
            b == !self.show_space,
    {
        !self.show_space
    }

    pub fn toggle_wrap(&mut self)
        ensures
            *final(self) == (Settings { word_wrap: !old(self).word_wrap, ..*old(self) }),
    {
        self.word_wrap = !self.word_wrap;
    }

    pub fn toggle_space(&mut self)
        ensures
            *final(self) == (Settings { show_space: !old(self).show_space, ..*old(self) }),
    {
        self.show_space = !self.show_space;
    }

    pub fn toggle_line_numbers(&mut self)
        ensures
            *final(self) == (Settings { line_numbers: !old(self).line_numbers, ..*old(self) }),
    {
        self.line_numbers = !self.line_numbers;
    }

    /// One point larger, up to the largest size.
    pub fn font_inc(&mut self)
        requires
            old(self).font < i32::MAX,
        ensures
            final(self).font == if old(self).font + 1 < MAX_FONT {
                old(self).font + 1
            } else {
                MAX_FONT as int
            },
            final(self).word_wrap == old(self).word_wrap,
            final(self).show_space == old(self).show_space,
            final(self).line_numbers == old(self).line_numbers,
    {
        let v = self.font + 1;
        self.font = if v < MAX_FONT { v } else { MAX_FONT };
    }

    /// One point smaller, down to the smallest size.
    pub fn font_dec(&mut self)
        requires
            old(self).font > i32::MIN,
        ensures
            final(self).font == if old(self).font - 1 > MIN_FONT {
                old(self).font - 1
            } else {
                MIN_FONT as int
            },
            final(self).word_wrap == old(self).word_wrap,
            final(self).show_space == old(self).show_space,
            final(self).line_numbers == old(self).line_numbers,
    {
        let v = self.font - 1;
        self.font = if v > MIN_FONT { v } else { MIN_FONT };
    }
}

/// Once the font is in range, the buttons keep it there.
pub proof fn law_font_stays_in_range(font: i32)
    requires
        MIN_FONT <= font <= MAX_FONT,
    ensures
        ({
            let up = if font + 1 < MAX_FONT { font + 1 } else { MAX_FONT as int };
            let down = if font - 1 > MIN_FONT { font - 1 } else { MIN_FONT as int };
            MIN_FONT <= up <= MAX_FONT && MIN_FONT <= down <= MAX_FONT
        }),
{
}

/// ASCII letters in lower case; every other character unchanged.
pub open spec fn ascii_lower(c: char) -> char {
    if 'A' <= c <= 'Z' {
        ((c as u32) + 32) as char
    } else {
        c
    }
}

pub open spec fn ascii_lower_seq(s: Seq<char>) -> Seq<char> {
    s.map_values(|c: char| ascii_lower(c))
}

fn lower_char(c: char) -> (r: char)
    ensures
        r == ascii_lower(c),
{
    if 'A' <= c && c <= 'Z' {
        let b = (c as u8) + 32;
        b as char
    } else {
        c
    }
}

/// The colour scheme an override names: `Some(true)` for `dark`, `Some(false)`
/// for `light` (in any ASCII case), `None` for anything else.
pub open spec fn scheme_of(value: Seq<char>) -> Option<bool> {
    if ascii_lower_seq(value) == "dark"@ {
        Some(true)
    } else if ascii_lower_seq(value) == "light"@ {
        Some(false)
    } else {
        None
    }
}

/// Reads the value of the theme override variable: whether it asks for the
/// dark scheme, the light one, or neither (then the desktop decides).
pub fn theme_override(value: &str) -> (r: Option<bool>)
    ensures
        r == scheme_of(value@),
{
    let cs = chars_of(value);
    let mut low: Vec<char> = Vec::new();
    for i in 0..cs.len()
        invariant
            cs@ == value@,
            low@ == ascii_lower_seq(cs@.take(i as int)),
    {
        low.push(lower_char(cs[i]));
        assert(ascii_lower_seq(cs@.take(i + 1)) =~= ascii_lower_seq(cs@.take(i as int)).push(ascii_lower(cs@[i as int])));
    }
    assert(cs@.take(cs@.len() as int) =~= cs@);
    if crate::paths::is_lit(&low, "dark") {
        Some(true)
    } else if crate::paths::is_lit(&low, "light") {
        Some(false)
    } else {
        None
    }
}

/// `char::is_whitespace`: the characters with the Unicode `White_Space`
/// property.
pub open spec fn is_ws(c: char) -> bool {
    ||| '\u{9}' <= c <= '\u{d}'
    ||| c == ' '
    ||| c == '\u{85}'
    ||| c == '\u{a0}'
    ||| c == '\u{1680}'
    ||| '\u{2000}' <= c <= '\u{200a}'
    ||| c == '\u{2028}'
    ||| c == '\u{2029}'
    ||| c == '\u{202f}'
    ||| c == '\u{205f}'
    ||| c == '\u{3000}'
}

fn ws_char(c: char) -> (r: bool)
    ensures
        r == is_ws(c),
{
    ('\u{9}' <= c && c <= '\u{d}') || c == ' ' || c == '\u{85}' || c == '\u{a0}' || c == '\u{1680}' || ('\u{2000}' <= c
        && c <= '\u{200a}') || c == '\u{2028}' || c == '\u{2029}' || c == '\u{202f}' || c == '\u{205f}' || c == '\u{3000}'
}

/// `s` without its leading whitespace.
pub open spec fn trim_start_ws(s: Seq<char>) -> Seq<char>
    decreases s.len(),
{
    if s.len() > 0 && is_ws(s[0]) {
        trim_start_ws(s.drop_first())
    } else {
        s
    }
}

/// `s` without its trailing whitespace.
pub open spec fn trim_end_ws(s: Seq<char>) -> Seq<char>
    decreases s.len(),
{
    if s.len() > 0 && is_ws(s.last()) {
        trim_end_ws(s.drop_last())
    } else {
        s
    }
}

/// `str::trim`: `s` without leading and trailing whitespace.
pub open spec fn trim_ws(s: Seq<char>) -> Seq<char> {
    trim_end_ws(trim_start_ws(s))
}

fn trimmed_chars(value: &str) -> (t: Vec<char>)
    ensures
        t@ == trim_ws(value@),
{
    let cs = chars_of(value);
    let n = cs.len();
    let mut i: usize = 0;
    assert(cs@.subrange(0, n as int) =~= cs@);
    while i < n && ws_char(cs[i])
        invariant
            cs@ == value@,
            n == cs@.len(),
            i <= n,
            trim_start_ws(cs@) == trim_start_ws(cs@.subrange(i as int, n as int)),
        decreases n - i,
    {
        assert(cs@.subrange(i as int, n as int).drop_first() =~= cs@.subrange(i + 1, n as int));
        i = i + 1;
    }
    assert(trim_start_ws(cs@) == cs@.subrange(i as int, n as int));
    let ghost u = cs@.subrange(i as int, n as int);
    let mut j: usize = n;
    while j > i && ws_char(cs[j - 1])
        invariant
            cs@ == value@,
            n == cs@.len(),
            i <= j <= n,
            u == cs@.subrange(i as int, n as int),
            trim_end_ws(u) == trim_end_ws(cs@.subrange(i as int, j as int)),
        decreases j,
    {
        assert(cs@.subrange(i as int, j as int).drop_last() =~= cs@.subrange(i as int, j - 1));
        j = j - 1;
    }
    assert(trim_end_ws(u) == cs@.subrange(i as int, j as int));
    let mut t: Vec<char> = Vec::new();
    let mut k: usize = i;
    while k < j
        invariant
            i <= k <= j <= n,
            n == cs@.len(),
            t@ == cs@.subrange(i as int, k as int),
        decreases j - k,
    {
        t.push(cs[k]);
        assert(cs@.subrange(i as int, k + 1) =~= cs@.subrange(i as int, k as int).push(cs@[k as int]));
        k = k + 1;
    }
    t
}

/// Reads the value of the theme override variable with surrounding
/// whitespace ignored (`value.trim()`), so that ` dark ` asks for the dark
/// scheme too.
pub fn theme_override_trimmed(value: &str) -> (r: Option<bool>)
    ensures
        r == scheme_of(trim_ws(value@)),
{
    let t = trimmed_chars(value);
    let mut low: Vec<char> = Vec::new();
    for i in 0..t.len()
        invariant
            low@ == ascii_lower_seq(t@.take(i as int)),
    {
        low.push(lower_char(t[i]));
        assert(ascii_lower_seq(t@.take(i + 1)) =~= ascii_lower_seq(t@.take(i as int)).push(ascii_lower(t@[i as int])));
    }
    assert(t@.take(t@.len() as int) =~= t@);
    if crate::paths::is_lit(&low, "dark") {
        Some(true)
    } else if crate::paths::is_lit(&low, "light") {
        Some(false)
    } else {
        None
    }
}

fn lower_chars(value: &str) -> (low: Vec<char>)
    ensures
        low@ == ascii_lower_seq(value@),
{
    let cs = chars_of(value);
    let mut low: Vec<char> = Vec::new();
    for i in 0..cs.len()
        invariant
            cs@ == value@,
            low@ == ascii_lower_seq(cs@.take(i as int)),
    {
        low.push(lower_char(cs[i]));
        assert(ascii_lower_seq(cs@.take(i + 1)) =~= ascii_lower_seq(cs@.take(i as int)).push(ascii_lower(cs@[i as int])));
    }
    assert(cs@.take(cs@.len() as int) =~= cs@);
    low
}

/// Whether `needle` occurs in `hay`.
pub open spec fn occurs_in(hay: Seq<char>, needle: Seq<char>) -> bool {
    exists|i: int| 0 <= i && i + needle.len() <= hay.len() && #[trigger] hay.subrange(i, i + needle.len()) == needle
}

fn contains_chars(hay: &Vec<char>, needle: &Vec<char>) -> (r: bool)
    ensures
        r == occurs_in(hay@, needle@),
{
    let n = hay.len();
    let m = needle.len();
    if m == 0 {
        assert(hay@.subrange(0int, 0int + needle@.len()) =~= needle@);
        return true;
    }
    if m > n {
        return false;
    }
    let count = n - m + 1;
    let mut i: usize = 0;
    while i < count
        invariant
            n == hay@.len(),
            m == needle@.len(),
            m > 0,
            m <= n,
            count == n - m + 1,
            i <= count,
            forall|j: int| 0 <= j < i ==> #[trigger] hay@.subrange(j, j + m) != needle@,
        decreases count - i,
    {
        let mut k: usize = 0;
        let mut same = true;
        while k < m
            invariant
                n == hay@.len(),
                m == needle@.len(),
                i + m <= n,
                k <= m,
                same == (forall|t: int| 0 <= t < k ==> hay@[i + t] == needle@[t]),
            decreases m - k,
        {
            if hay[i + k] != needle[k] {
                same = false;
            }
            k = k + 1;
        }
        if same {
            assert(hay@.subrange(i as int, i + m) =~= needle@);
            return true;
        }
        proof {
            let t = choose|t: int| 0 <= t < m && hay@[i + t] != needle@[t];
            assert(hay@.subrange(i as int, i + m)[t] != needle@[t]);
        }
        i = i + 1;
    }
    false
}

/// The desktop scheme guessed from the environment: an explicit dark flag
/// decides alone (`1`, `true`, `yes` or `dark` mean dark); otherwise a GTK
/// or Qt platform theme whose name contains `dark` (in any ASCII case) means
/// dark; anything else, light.
pub open spec fn dark_scheme(flag: Option<Seq<char>>, gtk_theme: Option<Seq<char>>, qt_theme: Option<Seq<char>>) -> bool {
    match flag {
        Some(v) => v == "1"@ || v == "true"@ || v == "yes"@ || v == "dark"@,
        None => {
            (gtk_theme matches Some(g) && occurs_in(ascii_lower_seq(g), "dark"@)) || (qt_theme matches Some(q)
                && occurs_in(ascii_lower_seq(q), "dark"@))
        },
    }
}

pub open spec fn opt_chars(o: Option<&str>) -> Option<Seq<char>> {
    match o {
        Some(s) => Some(s@),
        None => None,
    }
}

/// Decides dark or light from the values of the dark flag and the two
/// theme variables, each absent when unset.
pub fn dark_from_env(flag: Option<&str>, gtk_theme: Option<&str>, qt_theme: Option<&str>) -> (dark: bool)
    ensures
        dark == dark_scheme(opt_chars(flag), opt_chars(gtk_theme), opt_chars(qt_theme)),
{
    let word = crate::text::chars_of("dark");
    proof {
        reveal_strlit("dark");
    }
    match flag {
        Some(v) => {
            let cs = chars_of(v);
            return crate::paths::is_lit(&cs, "1") || crate::paths::is_lit(&cs, "true") || crate::paths::is_lit(&cs, "yes")
                || crate::paths::is_lit(&cs, "dark");
        },
        None => {},
    }
    match gtk_theme {
        Some(g) => {
            if contains_chars(&lower_chars(g), &word) {
                return true;
            }
        },
        None => {},
    }
    match qt_theme {
        Some(q) => contains_chars(&lower_chars(q), &word),
        None => false,
    }
}

/// The scheme an override names when only the exact words count:
/// `Some(true)` for `dark`, `Some(false)` for `light`, `None` otherwise or
/// when the variable is unset.
pub open spec fn exact_scheme(value: Option<Seq<char>>) -> Option<bool> {
    match value {
        Some(v) => if v == "dark"@ {
            Some(true)
        } else if v == "light"@ {
            Some(false)
        } else {
            None
        },
        None => None,
    }
}

/// Reads an override value by its exact words.
pub fn theme_exact(value: Option<&str>) -> (r: Option<bool>)
    ensures
        r == exact_scheme(opt_chars(value)),
{
    match value {
        Some(v) => {
            let cs = chars_of(v);
            if crate::paths::is_lit(&cs, "dark") {
                Some(true)
            } else if crate::paths::is_lit(&cs, "light") {
                Some(false)
            } else {
                None
            }
        },
        None => None,
    }
}

/// The dark flag, when set, decides alone: the scheme is dark exactly when
/// the flag is `1`, `true`, `yes` or `dark`, whatever the desktop themes say.
/// Without the flag, a GTK or Qt theme whose name holds `dark` in any ASCII
/// case makes it dark; with neither, it is light.
pub proof fn law_dark_scheme(flag: Option<Seq<char>>, gtk_theme: Option<Seq<char>>, qt_theme: Option<Seq<char>>)
    ensures
        dark_scheme(Some("1"@), gtk_theme, qt_theme),
        dark_scheme(Some("true"@), gtk_theme, qt_theme),
        dark_scheme(Some("yes"@), gtk_theme, qt_theme),
        dark_scheme(Some("dark"@), gtk_theme, qt_theme),
        flag matches Some(v) ==> (dark_scheme(flag, gtk_theme, qt_theme) <==> (v == "1"@ || v == "true"@ || v == "yes"@
            || v == "dark"@)),
        flag matches Some(v) ==> dark_scheme(flag, gtk_theme, qt_theme) == dark_scheme(flag, None, None),
        gtk_theme matches Some(g) && occurs_in(ascii_lower_seq(g), "dark"@) ==> dark_scheme(None, gtk_theme, qt_theme),
        qt_theme matches Some(q) && occurs_in(ascii_lower_seq(q), "dark"@) ==> dark_scheme(None, gtk_theme, qt_theme),
        !dark_scheme(None, None, None),
{
}

/// The theme override names the dark scheme by `dark` and the light one by
/// `light`, in any ASCII case; any other value names neither. The exact
/// reading takes only the lower-case words.
pub proof fn law_theme_override_words(v: Seq<char>)
    ensures
        ascii_lower_seq(v) == "dark"@ ==> scheme_of(v) == Some(true),
        ascii_lower_seq(v) == "light"@ ==> scheme_of(v) == Some(false),
        ascii_lower_seq(v) != "dark"@ && ascii_lower_seq(v) != "light"@ ==> scheme_of(v) is None,
        scheme_of("Dark"@) == Some(true) && scheme_of("LIGHT"@) == Some(false),
        exact_scheme(Some("dark"@)) == Some(true) && exact_scheme(Some("light"@)) == Some(false),
        exact_scheme(Some("Dark"@)) is None && exact_scheme(None) is None,
{
    reveal_strlit("dark");
    reveal_strlit("light");
    reveal_strlit("Dark");
    reveal_strlit("LIGHT");
    assert(ascii_lower_seq("Dark"@) =~= "dark"@);
    assert(ascii_lower_seq("LIGHT"@) =~= "light"@);
    assert("Dark"@ != "dark"@ && "Dark"@ != "light"@) by {
        assert("Dark"@[0] != "dark"@[0]);
    }
}

} // verus!

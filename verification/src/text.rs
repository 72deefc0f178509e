//! Character-level helpers: whitespace, trimming, decimal and hex digits, and the
//! escaping and shortening of text for display.

use vstd::prelude::*;

verus! {

/// The characters of a string slice, in order.
pub fn chars_of(s: &str) -> (out: Vec<char>)
    ensures
        out@ == s@,
{
    let mut out: Vec<char> = Vec::new();
    for c in it: s.chars()
        invariant
            it.seq() == s@,
            out@ == it.seq().take(it.index() as int),
    {
        out.push(c);
    }
    out
}

/// `String::push` of std: appends one character.
#[verifier::external_body]
pub(crate) fn push_char(s: &mut String, c: char)
    ensures
        final(s)@ == old(s)@.push(c),
{
    s.push(c);
}

/// Appends every character of `cs` to `s`.
pub fn push_all(s: &mut String, cs: &Vec<char>)
    ensures
        final(s)@ == old(s)@ + cs@,
{
    let ghost start = s@;
    for i in 0..cs.len()
        invariant
            s@ == start + cs@.take(i as int),
    {
        push_char(s, cs[i]);
        assert(cs@.take(i + 1) == cs@.take(i as int).push(cs@[i as int]));
    }
    assert(cs@.take(cs@.len() as int) == cs@);
}

/// A string holding exactly the given characters.
pub fn string_of(cs: &Vec<char>) -> (s: String)
    ensures
        s@ == cs@,
{
    let mut s = String::new();
    push_all(&mut s, cs);
    s
}

/// A copy of a string slice as an owned string.
pub fn owned(s: &str) -> (out: String)
    ensures
        out@ == s@,
{
    String::from_str(s)
}

/// Unicode `White_Space`, the set that `char::is_whitespace` tests for.
pub open spec fn is_ws(c: char) -> bool {
    let u = c as u32;
    ||| 0x09 <= u <= 0x0d
    ||| u == 0x20
    ||| u == 0x85
    ||| u == 0xa0
    ||| u == 0x1680
    ||| 0x2000 <= u <= 0x200a
    ||| u == 0x2028
    ||| u == 0x2029
    ||| u == 0x202f
    ||| u == 0x205f
    ||| u == 0x3000
}

pub fn is_whitespace(c: char) -> (b: bool)
    ensures
        b == is_ws(c),
{
    let u = c as u32;
    (0x09 <= u && u <= 0x0d) || u == 0x20 || u == 0x85 || u == 0xa0 || u == 0x1680 || (0x2000
        <= u && u <= 0x200a) || u == 0x2028 || u == 0x2029 || u == 0x202f || u == 0x205f || u
        == 0x3000
}

/// The length of `s` once trailing characters satisfying `p` are dropped.
pub open spec fn kept_len(s: Seq<char>, p: spec_fn(char) -> bool) -> nat
    decreases s.len(),
{
    if s.len() == 0 {
        0
    } else if p(s.last()) {
        kept_len(s.drop_last(), p)
    } else {
        s.len()
    }
}

/// The number of leading characters of `s` satisfying `p`.
pub open spec fn skipped_len(s: Seq<char>, p: spec_fn(char) -> bool) -> nat
    decreases s.len(),
{
    if s.len() == 0 {
        0
    } else if p(s.first()) {
        1 + skipped_len(s.drop_first(), p)
    } else {
        0
    }
}

pub proof fn lemma_kept_len(s: Seq<char>, p: spec_fn(char) -> bool)
    ensures
        kept_len(s, p) <= s.len(),
        forall|i: int| kept_len(s, p) <= i < s.len() ==> p(#[trigger] s[i]),
        kept_len(s, p) > 0 ==> !p(s[kept_len(s, p) - 1]),
    decreases s.len(),
{
    if s.len() > 0 && p(s.last()) {
        lemma_kept_len(s.drop_last(), p);
        assert forall|i: int| kept_len(s, p) <= i < s.len() implies p(#[trigger] s[i]) by {
            if i < s.len() - 1 {
                assert(s[i] == s.drop_last()[i]);
            }
        }
    }
}

pub proof fn lemma_skipped_len(s: Seq<char>, p: spec_fn(char) -> bool)
    ensures
        skipped_len(s, p) <= s.len(),
        forall|i: int| 0 <= i < skipped_len(s, p) ==> p(#[trigger] s[i]),
        skipped_len(s, p) < s.len() ==> !p(s[skipped_len(s, p) as int]),
    decreases s.len(),
{
    if s.len() > 0 && p(s.first()) {
        lemma_skipped_len(s.drop_first(), p);
        assert forall|i: int| 0 <= i < skipped_len(s, p) implies p(#[trigger] s[i]) by {
            if i > 0 {
                assert(s[i] == s.drop_first()[i - 1]);
            }
        }
    }
}

/// If a prefix of `s` has exactly the length that trimming `p` at the end keeps,
/// this is characterized by the position facts alone.
proof fn lemma_kept_len_unique(s: Seq<char>, p: spec_fn(char) -> bool, k: int)
    requires
        0 <= k <= s.len(),
        forall|i: int| k <= i < s.len() ==> p(#[trigger] s[i]),
        k > 0 ==> !p(s[k - 1]),
    ensures
        kept_len(s, p) == k,
    decreases s.len(),
{
    if s.len() > 0 && k < s.len() {
        assert(p(s[s.len() - 1]));
        lemma_kept_len_unique(s.drop_last(), p, k);
    }
}

proof fn lemma_skipped_len_unique(s: Seq<char>, p: spec_fn(char) -> bool, k: int)
    requires
        0 <= k <= s.len(),
        forall|i: int| 0 <= i < k ==> p(#[trigger] s[i]),
        k < s.len() ==> !p(s[k]),
    ensures
        skipped_len(s, p) == k,
    decreases s.len(),
{
    if s.len() > 0 && k > 0 {
        assert(p(s[0]));
        assert forall|i: int| 0 <= i < k - 1 implies p(#[trigger] s.drop_first()[i]) by {
            assert(s.drop_first()[i] == s[i + 1]);
        }
        lemma_skipped_len_unique(s.drop_first(), p, k - 1);
    }
}

pub open spec fn ws_pred() -> spec_fn(char) -> bool {
    |c: char| is_ws(c)
}

pub open spec fn newline_pred() -> spec_fn(char) -> bool {
    |c: char| c == '\n' || c == '\r'
}

/// `str::trim_end`: the text without its trailing whitespace.
pub open spec fn trim_end_spec(s: Seq<char>) -> Seq<char> {
    s.take(kept_len(s, ws_pred()) as int)
}

/// `str::trim`: the text without its leading and trailing whitespace.
pub open spec fn trim_spec(s: Seq<char>) -> Seq<char> {
    let e = trim_end_spec(s);
    e.skip(skipped_len(e, ws_pred()) as int)
}

/// `str::trim_end_matches(['\n', '\r'])`: the text without its trailing line breaks.
pub open spec fn trim_newlines_spec(s: Seq<char>) -> Seq<char> {
    s.take(kept_len(s, newline_pred()) as int)
}

fn drops(c: char, ws: bool) -> (b: bool)
    ensures
        ws ==> b == ws_pred()(c),
        !ws ==> b == newline_pred()(c),
{
    if ws {
        is_whitespace(c)
    } else {
        c == '\n' || c == '\r'
    }
}

/// The length kept once trailing characters satisfying `p` are dropped,
/// where `p` is whitespace when `ws` holds and a line break otherwise.
fn kept_end(cs: &Vec<char>, ws: bool) -> (k: usize)
    ensures
        k <= cs@.len(),
        ws ==> k == kept_len(cs@, ws_pred()),
        !ws ==> k == kept_len(cs@, newline_pred()),
{
    let ghost p = if ws { ws_pred() } else { newline_pred() };
    let mut k = cs.len();
    while k > 0 && drops(cs[k - 1], ws)
        invariant
            k <= cs@.len(),
            p == (if ws { ws_pred() } else { newline_pred() }),
            forall|i: int| k <= i < cs@.len() ==> p(#[trigger] cs@[i]),
        decreases k,
    {
        k = k - 1;
    }
    proof {
        lemma_kept_len_unique(cs@, p, k as int);
    }
    k
}

/// The characters `cs[from..to]`.
pub fn slice_chars(cs: &Vec<char>, from: usize, to: usize) -> (out: Vec<char>)
    requires
        from <= to <= cs@.len(),
    ensures
        out@ == cs@.subrange(from as int, to as int),
{
    let mut out: Vec<char> = Vec::new();
    let mut i = from;
    while i < to
        invariant
            from <= i <= to <= cs@.len(),
            out@ == cs@.subrange(from as int, i as int),
        decreases to - i,
    {
        out.push(cs[i]);
        i = i + 1;
    }
    out
}

/// `s.trim_end().to_string()`.
pub fn trim_end(s: &str) -> (out: String)
    ensures
        out@ == trim_end_spec(s@),
{
    let cs = chars_of(s);
    let k = kept_end(&cs, true);
    string_of(&slice_chars(&cs, 0, k))
}

/// `s.trim_end_matches(['\n', '\r']).to_string()`.
pub fn trim_newlines(s: &str) -> (out: String)
    ensures
        out@ == trim_newlines_spec(s@),
{
    let cs = chars_of(s);
    let k = kept_end(&cs, false);
    string_of(&slice_chars(&cs, 0, k))
}

/// `s.trim().to_string()`.
pub fn trim(s: &str) -> (out: String)
    ensures
        out@ == trim_spec(s@),
{
    let cs = chars_of(s);
    let k = kept_end(&cs, true);
    let ghost e = cs@.take(k as int);
    let mut j: usize = 0;
    while j < k && is_whitespace(cs[j])
        invariant
            j <= k <= cs@.len(),
            e == cs@.take(k as int),
            forall|i: int| 0 <= i < j ==> is_ws(#[trigger] e[i]),
        decreases k - j,
    {
        j = j + 1;
    }
    proof {
        assert forall|i: int| 0 <= i < j implies ws_pred()(#[trigger] e[i]) by {}
        lemma_skipped_len_unique(e, ws_pred(), j as int);
        assert(e.skip(j as int) == cs@.subrange(j as int, k as int));
    }
    string_of(&slice_chars(&cs, j, k))
}

// ---------------------------------------------------------------------------
// Numbers as text
// ---------------------------------------------------------------------------

/// The decimal digit character for `d < 10`.
pub open spec fn digit_char(d: nat) -> char {
    if d == 0 { '0' }
    else if d == 1 { '1' }
    else if d == 2 { '2' }
    else if d == 3 { '3' }
    else if d == 4 { '4' }
    else if d == 5 { '5' }
    else if d == 6 { '6' }
    else if d == 7 { '7' }
    else if d == 8 { '8' }
    else { '9' }
}

/// The lowercase hexadecimal digit character for `d < 16`.
pub open spec fn hex_char(d: nat) -> char {
    if d < 10 { digit_char(d) }
    else if d == 10 { 'a' }
    else if d == 11 { 'b' }
    else if d == 12 { 'c' }
    else if d == 13 { 'd' }
    else if d == 14 { 'e' }
    else { 'f' }
}

/// The decimal rendering of `n` (`n.to_string()`), without leading zeros.
pub open spec fn decimal(n: nat) -> Seq<char>
    decreases n,
{
    if n < 10 {
        seq![digit_char(n)]
    } else {
        decimal(n / 10).push(digit_char(n % 10))
    }
}

/// Two lowercase hex digits for a byte (`format!("{:02x}", b)`).
pub open spec fn hex2(b: u8) -> Seq<char> {
    seq![hex_char((b / 16) as nat), hex_char((b % 16) as nat)]
}

pub fn hex_digit(d: u8) -> (c: char)
    requires
        d < 16,
    ensures
        c == hex_char(d as nat),
{
    match d {
        0 => '0',
        1 => '1',
        2 => '2',
        3 => '3',
        4 => '4',
        5 => '5',
        6 => '6',
        7 => '7',
        8 => '8',
        9 => '9',
        10 => 'a',
        11 => 'b',
        12 => 'c',
        13 => 'd',
        14 => 'e',
        _ => 'f',
    }
}

/// Appends the decimal rendering of `n` to `s`.
pub fn push_decimal(s: &mut String, n: u32)
    ensures
        final(s)@ == old(s)@ + decimal(n as nat),
    decreases n,
{
    if n >= 10 {
        push_decimal(s, n / 10);
        push_char(s, hex_digit((n % 10) as u8));
    } else {
        push_char(s, hex_digit(n as u8));
    }
    proof {
        assert(n >= 10 ==> old(s)@ + decimal(n as nat) == old(s)@ + decimal((n / 10) as nat)
            + seq![digit_char((n % 10) as nat)]);
    }
}

/// `n.to_string()` for a line number or count.
pub fn decimal_string(n: u32) -> (s: String)
    ensures
        s@ == decimal(n as nat),
{
    let mut s = String::new();
    push_decimal(&mut s, n);
    s
}

/// Appends two lowercase hex digits for `b`.
pub fn push_hex2(s: &mut String, b: u8)
    ensures
        final(s)@ == old(s)@ + hex2(b),
{
    push_char(s, hex_digit(b / 16));
    push_char(s, hex_digit(b % 16));
}

// ---------------------------------------------------------------------------
// Display text
// ---------------------------------------------------------------------------

/// The rich-text escape of one character, which keeps spaces and tabs visible.
pub open spec fn escape_char(c: char) -> Seq<char> {
    if c == '&' {
        "&amp;"@
    } else if c == '<' {
        "&lt;"@
    } else if c == '>' {
        "&gt;"@
    } else if c == ' ' {
        "&nbsp;"@
    } else if c == '\t' {
        "&nbsp;&nbsp;&nbsp;&nbsp;"@
    } else {
        seq![c]
    }
}

/// The escape of every character, concatenated.
pub open spec fn html_escape_spec(s: Seq<char>) -> Seq<char>
    decreases s.len(),
{
    if s.len() == 0 {
        Seq::empty()
    } else {
        html_escape_spec(s.drop_last()) + escape_char(s.last())
    }
}

/// Escapes text for Qt rich text: `&`, `<`, `>` become entities, a space becomes
/// `&nbsp;` and a tab four of them, so indentation survives.
pub fn html_escape(s: &str) -> (out: String)
    ensures
        out@ == html_escape_spec(s@),
{
    let cs = chars_of(s);
    let mut out = String::new();
    for i in 0..cs.len()
        invariant
            cs@ == s@,
            out@ == html_escape_spec(cs@.take(i as int)),
    {
        let c = cs[i];
        proof {
            assert(cs@.take(i + 1).drop_last() == cs@.take(i as int));
        }
        if c == '&' {
            out.append("&amp;");
        } else if c == '<' {
            out.append("&lt;");
        } else if c == '>' {
            out.append("&gt;");
        } else if c == ' ' {
            out.append("&nbsp;");
        } else if c == '\t' {
            out.append("&nbsp;&nbsp;&nbsp;&nbsp;");
        } else {
            push_char(&mut out, c);
        }
    }
    assert(cs@.take(cs@.len() as int) == cs@);
    out
}

/// Text shortened to at most `max` characters: when it is longer, its first
/// `max - 1` characters (none when `max` is zero) followed by `…`.
pub open spec fn ellipsize_spec(s: Seq<char>, max: nat) -> Seq<char> {
    if s.len() <= max {
        s
    } else {
        s.take(if max == 0 { 0 } else { max - 1 }).push('\u{2026}')
    }
}

pub fn ellipsize(s: &str, max: usize) -> (out: String)
    ensures
        out@ == ellipsize_spec(s@, max as nat),
{
    let cs = chars_of(s);
    if cs.len() <= max {
        string_of(&cs)
    } else {
        let keep = if max == 0 { 0 } else { max - 1 };
        let mut out = string_of(&slice_chars(&cs, 0, keep));
        push_char(&mut out, '\u{2026}');
        out
    }
}

/// Trimmed text neither starts nor ends with whitespace, and trimming it
/// again changes nothing.
pub proof fn law_trim(s: Seq<char>)
    ensures
        trim_spec(s).len() > 0 ==> !is_ws(trim_spec(s).first()) && !is_ws(trim_spec(s).last()),
        trim_spec(trim_spec(s)) == trim_spec(s),
{
    let e = trim_end_spec(s);
    lemma_kept_len(s, ws_pred());
    lemma_skipped_len(e, ws_pred());
    let k = skipped_len(e, ws_pred()) as int;
    let r = e.skip(k);
    assert(e.len() == kept_len(s, ws_pred()));
    if r.len() > 0 {
        assert(r.first() == e[k]);
        assert(r.last() == e[e.len() - 1]);
        assert(e[e.len() - 1] == s[kept_len(s, ws_pred()) - 1]);
        lemma_kept_len_unique(r, ws_pred(), r.len() as int);
        assert(r.take(r.len() as int) =~= r);
        lemma_skipped_len_unique(r, ws_pred(), 0);
        assert(r.skip(0) =~= r);
    } else {
        assert(kept_len(r, ws_pred()) == 0);
        assert(r.take(0) =~= r);
        assert(skipped_len(r.take(0), ws_pred()) == 0);
        assert(r.take(0).skip(0) =~= r);
    }
}

/// Escaped text holds no `<`, `>`, space or tab: markup characters are
/// entities and whitespace is `&nbsp;`.
pub proof fn law_escape_has_no_markup(s: Seq<char>)
    ensures
        forall|i: int|
            0 <= i < html_escape_spec(s).len() ==> {
                let c = #[trigger] html_escape_spec(s)[i];
                c != '<' && c != '>' && c != ' ' && c != '\t'
            },
    decreases s.len(),
{
    if s.len() > 0 {
        law_escape_has_no_markup(s.drop_last());
        let a = html_escape_spec(s.drop_last());
        let b = escape_char(s.last());
        reveal_strlit("&amp;");
        reveal_strlit("&lt;");
        reveal_strlit("&gt;");
        reveal_strlit("&nbsp;");
        reveal_strlit("&nbsp;&nbsp;&nbsp;&nbsp;");
        assert forall|i: int| 0 <= i < (a + b).len() implies {
            let c = #[trigger] (a + b)[i];
            c != '<' && c != '>' && c != ' ' && c != '\t'
        } by {
            if i >= a.len() {
                assert((a + b)[i] == b[i - a.len()]);
            } else {
                assert((a + b)[i] == a[i]);
            }
        }
    }
}

/// The entities the escape writes.
pub open spec fn amp_entity() -> Seq<char> {
    seq!['&', 'a', 'm', 'p', ';']
}

pub open spec fn lt_entity() -> Seq<char> {
    seq!['&', 'l', 't', ';']
}

pub open spec fn gt_entity() -> Seq<char> {
    seq!['&', 'g', 't', ';']
}

pub open spec fn nbsp_entity() -> Seq<char> {
    seq!['&', 'n', 'b', 's', 'p', ';']
}

pub open spec fn starts_with(h: Seq<char>, p: Seq<char>) -> bool {
    p.len() <= h.len() && h.subrange(0, p.len() as int) == p
}

/// Decoding rich text left to right: `&amp;`, `&lt;`, `&gt;` and `&nbsp;`
/// become `&`, `<`, `>` and a space; every other character stays.
pub open spec fn html_unescape(h: Seq<char>) -> Seq<char>
    decreases h.len(),
{
    if h.len() == 0 {
        Seq::empty()
    } else if starts_with(h, amp_entity()) {
        seq!['&'] + html_unescape(h.skip(5))
    } else if starts_with(h, lt_entity()) {
        seq!['<'] + html_unescape(h.skip(4))
    } else if starts_with(h, gt_entity()) {
        seq!['>'] + html_unescape(h.skip(4))
    } else if starts_with(h, nbsp_entity()) {
        seq![' '] + html_unescape(h.skip(6))
    } else {
        seq![h[0]] + html_unescape(h.skip(1))
    }
}

/// A character as it reads back: a tab as four spaces.
pub open spec fn detab_char(c: char) -> Seq<char> {
    if c == '\t' {
        seq![' ', ' ', ' ', ' ']
    } else {
        seq![c]
    }
}

/// Text with every tab as four spaces.
pub open spec fn detab(s: Seq<char>) -> Seq<char>
    decreases s.len(),
{
    if s.len() == 0 {
        Seq::empty()
    } else {
        detab(s.drop_last()) + detab_char(s.last())
    }
}

proof fn lemma_escape_front(c: char, s: Seq<char>)
    ensures
        html_escape_spec(seq![c] + s) == escape_char(c) + html_escape_spec(s),
        detab(seq![c] + s) == detab_char(c) + detab(s),
    decreases s.len(),
{
    if s.len() == 0 {
        let one = seq![c];
        assert(one + s =~= one);
        assert(one.drop_last() =~= Seq::<char>::empty());
        assert(one.last() == c);
        assert(html_escape_spec(one.drop_last()) == Seq::<char>::empty());
        assert(html_escape_spec(one) == html_escape_spec(one.drop_last()) + escape_char(c));
        assert(html_escape_spec(s) == Seq::<char>::empty());
        assert(escape_char(c) + Seq::<char>::empty() =~= escape_char(c));
        assert(detab(one.drop_last()) == Seq::<char>::empty());
        assert(detab(one) == detab(one.drop_last()) + detab_char(c));
        assert(detab(s) == Seq::<char>::empty());
        assert(detab_char(c) + Seq::<char>::empty() =~= detab_char(c));
        assert(Seq::<char>::empty() + escape_char(c) =~= escape_char(c));
        assert(Seq::<char>::empty() + detab_char(c) =~= detab_char(c));
    } else {
        lemma_escape_front(c, s.drop_last());
        assert((seq![c] + s).drop_last() =~= seq![c] + s.drop_last());
        assert((seq![c] + s).last() == s.last());
        assert(escape_char(c) + html_escape_spec(s.drop_last()) + escape_char(s.last()) =~= escape_char(c) + (
        html_escape_spec(s.drop_last()) + escape_char(s.last())));
        assert(detab_char(c) + detab(s.drop_last()) + detab_char(s.last()) =~= detab_char(c) + (detab(s.drop_last())
            + detab_char(s.last())));
    }
}

proof fn lemma_unescape_entity(p: Seq<char>, c: char, r: Seq<char>)
    requires
        (p == amp_entity() && c == '&') || (p == lt_entity() && c == '<') || (p == gt_entity() && c == '>') || (p
            == nbsp_entity() && c == ' '),
    ensures
        html_unescape(p + r) == seq![c] + html_unescape(r),
{
    let h = p + r;
    assert(h.skip(p.len() as int) =~= r);
    assert(h.subrange(0, p.len() as int) =~= p);
    assert(h[0] == '&' && h[1] == p[1]);
    if p != amp_entity() {
        assert(!starts_with(h, amp_entity())) by {
            if amp_entity().len() <= h.len() {
                assert(h.subrange(0, 5)[1] == h[1]);
            }
        }
    }
    if p != lt_entity() {
        assert(!starts_with(h, lt_entity())) by {
            assert(h.subrange(0, 4)[1] == h[1]);
        }
    }
    if p != gt_entity() {
        assert(!starts_with(h, gt_entity())) by {
            assert(h.subrange(0, 4)[1] == h[1]);
        }
    }
}

proof fn lemma_unescape_char(c: char, r: Seq<char>)
    ensures
        html_unescape(escape_char(c) + r) == detab_char(c) + html_unescape(r),
{
    reveal_strlit("&amp;");
    reveal_strlit("&lt;");
    reveal_strlit("&gt;");
    reveal_strlit("&nbsp;");
    reveal_strlit("&nbsp;&nbsp;&nbsp;&nbsp;");
    if c == '&' {
        assert(escape_char(c) =~= amp_entity());
        lemma_unescape_entity(amp_entity(), c, r);
    } else if c == '<' {
        assert(escape_char(c) =~= lt_entity());
        lemma_unescape_entity(lt_entity(), c, r);
    } else if c == '>' {
        assert(escape_char(c) =~= gt_entity());
        lemma_unescape_entity(gt_entity(), c, r);
    } else if c == ' ' {
        assert(escape_char(c) =~= nbsp_entity());
        lemma_unescape_entity(nbsp_entity(), c, r);
    } else if c == '\t' {
        let n = nbsp_entity();
        assert(escape_char(c) + r =~= n + (n + (n + (n + r))));
        lemma_unescape_entity(n, ' ', r);
        lemma_unescape_entity(n, ' ', n + r);
        lemma_unescape_entity(n, ' ', n + (n + r));
        lemma_unescape_entity(n, ' ', n + (n + (n + r)));
        assert(detab_char(c) + html_unescape(r) =~= seq![' '] + (seq![' '] + (seq![' '] + (seq![' '] + html_unescape(r)))));
    } else {
        let h = seq![c] + r;
        assert(escape_char(c) + r =~= h);
        assert(h[0] == c);
        assert(h.skip(1) =~= r);
        assert(!starts_with(h, amp_entity())) by {
            if amp_entity().len() <= h.len() {
                assert(h.subrange(0, 5)[0] == h[0]);
            }
        }
        assert(!starts_with(h, lt_entity())) by {
            if lt_entity().len() <= h.len() {
                assert(h.subrange(0, 4)[0] == h[0]);
            }
        }
        assert(!starts_with(h, gt_entity())) by {
            if gt_entity().len() <= h.len() {
                assert(h.subrange(0, 4)[0] == h[0]);
            }
        }
        assert(!starts_with(h, nbsp_entity())) by {
            if nbsp_entity().len() <= h.len() {
                assert(h.subrange(0, 6)[0] == h[0]);
            }
        }
    }
}

/// Decoding the escape gives the text back, each tab as four spaces (so
/// indentation survives).
pub proof fn law_escape_round_trip(s: Seq<char>)
    ensures
        html_unescape(html_escape_spec(s)) == detab(s),
    decreases s.len(),
{
    if s.len() > 0 {
        let c = s[0];
        let t = s.drop_first();
        assert(s =~= seq![c] + t);
        lemma_escape_front(c, t);
        lemma_unescape_char(c, html_escape_spec(t));
        law_escape_round_trip(t);
    } else {
        assert(html_escape_spec(s) =~= Seq::<char>::empty());
    }
}

/// Position `i` of `h` starts one of the escape's entities.
pub open spec fn entity_at(h: Seq<char>, i: int) -> bool {
    ||| starts_with(h.skip(i), amp_entity())
    ||| starts_with(h.skip(i), lt_entity())
    ||| starts_with(h.skip(i), gt_entity())
    ||| starts_with(h.skip(i), nbsp_entity())
}

proof fn lemma_starts_with_more(x: Seq<char>, y: Seq<char>, p: Seq<char>)
    requires
        starts_with(x, p),
    ensures
        starts_with(x + y, p),
{
    assert((x + y).subrange(0, p.len() as int) =~= x.subrange(0, p.len() as int));
}

/// An entity holds `&` only at its start.
proof fn lemma_entity_one_amp(p: Seq<char>)
    requires
        p == amp_entity() || p == lt_entity() || p == gt_entity() || p == nbsp_entity(),
    ensures
        p[0] == '&',
        forall|k: int| 1 <= k < p.len() ==> p[k] != '&',
{
    assert forall|k: int| 1 <= k < p.len() implies p[k] != '&' by {
        if k == 1 {
        } else if k == 2 {
        } else if k == 3 {
        } else if k == 4 {
        } else {
        }
    }
}

/// In the escape of one character, every `&` starts an entity.
proof fn lemma_escape_char_entities(c: char)
    ensures
        forall|j: int|
            0 <= j < escape_char(c).len() && #[trigger] escape_char(c)[j] == '&' ==> entity_at(escape_char(c), j),
{
    reveal_strlit("&amp;");
    reveal_strlit("&lt;");
    reveal_strlit("&gt;");
    reveal_strlit("&nbsp;");
    reveal_strlit("&nbsp;&nbsp;&nbsp;&nbsp;");
    let b = escape_char(c);
    if c == '&' || c == '<' || c == '>' || c == ' ' {
        let p = if c == '&' {
            amp_entity()
        } else if c == '<' {
            lt_entity()
        } else if c == '>' {
            gt_entity()
        } else {
            nbsp_entity()
        };
        assert(b =~= p);
        lemma_entity_one_amp(p);
        assert(b.skip(0) =~= b);
        assert(b.subrange(0, p.len() as int) =~= p);
    } else if c == '\t' {
        let n = nbsp_entity();
        lemma_entity_one_amp(n);
        assert(b =~= n + (n + (n + n)));
        assert forall|j: int| 0 <= j < b.len() && #[trigger] b[j] == '&' implies entity_at(b, j) by {
            let q = j / 6;
            let r = j % 6;
            assert(b[j] == n[r]);
            assert(r == 0);
            assert(b.skip(j).subrange(0, 6) =~= n);
        }
    } else {
        assert(b =~= seq![c]);
    }
}

/// In escaped text every `&` starts `&amp;`, `&lt;`, `&gt;` or `&nbsp;`.
pub proof fn law_escape_amps_start_entities(s: Seq<char>)
    ensures
        forall|i: int|
            0 <= i < html_escape_spec(s).len() && #[trigger] html_escape_spec(s)[i] == '&' ==> entity_at(
                html_escape_spec(s),
                i,
            ),
    decreases s.len(),
{
    if s.len() > 0 {
        law_escape_amps_start_entities(s.drop_last());
        let a = html_escape_spec(s.drop_last());
        let b = escape_char(s.last());
        let h = html_escape_spec(s);
        assert(h == a + b);
        lemma_escape_char_entities(s.last());
        assert forall|i: int| 0 <= i < h.len() && #[trigger] h[i] == '&' implies entity_at(h, i) by {
            if i < a.len() {
                assert(h[i] == a[i]);
                assert(entity_at(a, i));
                assert(h.skip(i) =~= a.skip(i) + b);
                if starts_with(a.skip(i), amp_entity()) {
                    lemma_starts_with_more(a.skip(i), b, amp_entity());
                } else if starts_with(a.skip(i), lt_entity()) {
                    lemma_starts_with_more(a.skip(i), b, lt_entity());
                } else if starts_with(a.skip(i), gt_entity()) {
                    lemma_starts_with_more(a.skip(i), b, gt_entity());
                } else {
                    lemma_starts_with_more(a.skip(i), b, nbsp_entity());
                }
            } else {
                let j = i - a.len();
                assert(h[i] == b[j]);
                assert(entity_at(b, j));
                assert(h.skip(i) =~= b.skip(j));
            }
        }
    }
}

/// Shortened text fits: at most `max` characters for any positive `max`,
/// and text that already fits is left as it is.
pub proof fn law_ellipsize_fits(s: Seq<char>, max: nat)
    ensures
        max > 0 ==> ellipsize_spec(s, max).len() <= max,
        s.len() <= max ==> ellipsize_spec(s, max) == s,
{
}

} // verus!

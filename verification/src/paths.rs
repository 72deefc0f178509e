//! Paths of changed files: their `/`-separated components, file names,
//! extensions, and the icon a file gets by its extension.

use vstd::prelude::*;
use crate::text::{chars_of, slice_chars};

verus! {

/// `str::split('/')`: the pieces between slashes, empty ones included.
pub open spec fn split_slash(s: Seq<char>) -> Seq<Seq<char>>
    decreases s.len(),
{
    if s.len() == 0 {
        seq![Seq::empty()]
    } else {
        let r = split_slash(s.drop_last());
        if s.last() == '/' {
            r.push(Seq::empty())
        } else {
            r.update(r.len() - 1, r.last().push(s.last()))
        }
    }
}

pub proof fn lemma_split_slash_len(s: Seq<char>)
    ensures
        split_slash(s).len() >= 1,
    decreases s.len(),
{
    if s.len() > 0 {
        lemma_split_slash_len(s.drop_last());
    }
}

/// The pieces that are not empty, in order.
pub open spec fn non_empty(ps: Seq<Seq<char>>) -> Seq<Seq<char>>
    decreases ps.len(),
{
    if ps.len() == 0 {
        Seq::empty()
    } else {
        let r = non_empty(ps.drop_last());
        if ps.last().len() > 0 {
            r.push(ps.last())
        } else {
            r
        }
    }
}

/// Every piece that `non_empty` keeps is non-empty.
pub proof fn lemma_non_empty(ps: Seq<Seq<char>>)
    ensures
        forall|i: int| 0 <= i < non_empty(ps).len() ==> (#[trigger] non_empty(ps)[i]).len() > 0,
    decreases ps.len(),
{
    if ps.len() > 0 {
        let r = non_empty(ps.drop_last());
        lemma_non_empty(ps.drop_last());
        if ps.last().len() > 0 {
            assert forall|i: int| 0 <= i < r.push(ps.last()).len() implies (#[trigger] r.push(ps.last())[i]).len() > 0 by {
                if i < r.len() {
                    assert(r.push(ps.last())[i] == r[i]);
                }
            }
        }
    }
}

/// `path.split('/').filter(|c| !c.is_empty())`: the components of a path.
pub open spec fn components(s: Seq<char>) -> Seq<Seq<char>> {
    non_empty(split_slash(s))
}

/// Equality of two character vectors.
pub fn same_chars(a: &Vec<char>, b: &Vec<char>) -> (r: bool)
    ensures
        r == (a@ == b@),
{
    if a.len() != b.len() {
        return false;
    }
    let mut i: usize = 0;
    while i < a.len()
        invariant
            a@.len() == b@.len(),
            i <= a@.len(),
            forall|j: int| 0 <= j < i ==> a@[j] == b@[j],
        decreases a@.len() - i,
    {
        if a[i] != b[i] {
            return false;
        }
        i = i + 1;
    }
    assert(a@ =~= b@);
    true
}

/// Whether the characters spell the given literal.
pub fn is_lit(a: &Vec<char>, lit: &str) -> (r: bool)
    ensures
        r == (a@ == lit@),
{
    let b = chars_of(lit);
    same_chars(a, &b)
}

/// The components of a path, each as its characters.
pub fn path_components(path: &str) -> (out: Vec<Vec<char>>)
    ensures
        out@.map_values(|c: Vec<char>| c@) == components(path@),
{
    let cs = chars_of(path);
    let mut out: Vec<Vec<char>> = Vec::new();
    let mut cur: Vec<char> = Vec::new();
    for i in 0..cs.len()
        invariant
            cs@ == path@,
            ({
                let sp = split_slash(cs@.take(i as int));
                &&& sp.len() >= 1
                &&& sp.last() == cur@
                &&& out@.map_values(|c: Vec<char>| c@) == non_empty(sp.drop_last())
            }),
    {
        proof {
            assert(cs@.take(i + 1).drop_last() =~= cs@.take(i as int));
            lemma_split_slash_len(cs@.take(i as int));
        }
        let ghost sp0 = split_slash(cs@.take(i as int));
        let c = cs[i];
        if c == '/' {
            let ghost before = out@.map_values(|c: Vec<char>| c@);
            if cur.len() > 0 {
                out.push(cur);
                proof {
                    assert(out@.map_values(|c: Vec<char>| c@) =~= before.push(sp0.last()));
                }
            }
            cur = Vec::new();
            proof {
                let sp1 = split_slash(cs@.take(i + 1));
                assert(sp1 == sp0.push(Seq::<char>::empty()));
                assert(sp1.drop_last() =~= sp0);
                assert(sp0 =~= sp0.drop_last().push(sp0.last()));
                assert(cur@ =~= Seq::<char>::empty());
            }
        } else {
            cur.push(c);
            proof {
                let sp1 = split_slash(cs@.take(i + 1));
                assert(sp1.drop_last() =~= sp0.drop_last());
            }
        }
    }
    let ghost sp = split_slash(cs@);
    assert(cs@.take(cs@.len() as int) =~= cs@);
    let ghost before = out@.map_values(|c: Vec<char>| c@);
    if cur.len() > 0 {
        out.push(cur);
        assert(out@.map_values(|c: Vec<char>| c@) =~= before.push(sp.last()));
    }
    assert(sp =~= sp.drop_last().push(sp.last()));
    out
}

/// `Path::file_name` for a `/`-separated relative path: the last component
/// that is neither empty nor `.`, unless that component is `..` or there is none.
pub open spec fn file_name_spec(s: Seq<char>) -> Option<Seq<char>> {
    match last_named(components(s)) {
        Some(n) => if n == ".."@ { None } else { Some(n) },
        None => None,
    }
}

/// The last piece that is not `.`.
pub open spec fn last_named(ps: Seq<Seq<char>>) -> Option<Seq<char>>
    decreases ps.len(),
{
    if ps.len() == 0 {
        None
    } else if ps.last() == "."@ {
        last_named(ps.drop_last())
    } else {
        Some(ps.last())
    }
}

/// The index of the last `.` in `s`, if any.
pub open spec fn last_dot(s: Seq<char>) -> Option<int>
    decreases s.len(),
{
    if s.len() == 0 {
        None
    } else if s.last() == '.' {
        Some(s.len() - 1)
    } else {
        last_dot(s.drop_last())
    }
}

/// `Path::extension` of a file name: what follows its last `.`, unless there is
/// no `.` or the only one starts the name.
pub open spec fn ext_of_name(name: Seq<char>) -> Option<Seq<char>> {
    match last_dot(name) {
        Some(i) => if i == 0 { None } else { Some(name.skip(i + 1)) },
        None => None,
    }
}

pub open spec fn extension_spec(s: Seq<char>) -> Option<Seq<char>> {
    match file_name_spec(s) {
        Some(n) => ext_of_name(n),
        None => None,
    }
}

/// `Path::new(path).file_name()`, as characters.
pub fn file_name_chars(path: &str) -> (r: Option<Vec<char>>)
    ensures
        match r {
            Some(n) => file_name_spec(path@) == Some(n@),
            None => file_name_spec(path@) is None,
        },
{
    let comps = path_components(path);
    let ghost cv = comps@.map_values(|c: Vec<char>| c@);
    let mut k = comps.len();
    assert(cv.take(k as int) =~= cv);
    while k > 0 && is_lit(&comps[k - 1], ".")
        invariant
            k <= comps@.len(),
            cv == comps@.map_values(|c: Vec<char>| c@),
            last_named(cv) == last_named(cv.take(k as int)),
        decreases k,
    {
        proof {
            assert(cv.take(k as int).drop_last() =~= cv.take(k - 1));
            assert(cv.take(k as int).last() == comps@[k - 1]@);
        }
        k = k - 1;
    }
    if k == 0 {
        assert(cv.take(0) =~= Seq::<Seq<char>>::empty());
        return None;
    }
    let last = slice_chars(&comps[k - 1], 0, comps[k - 1].len());
    assert(last@ =~= comps@[k - 1]@);
    assert(cv.take(k as int).last() == cv[k - 1]);
    if is_lit(&last, "..") {
        None
    } else {
        Some(last)
    }
}

/// The extension of a file name, as characters.
pub fn ext_of_name_chars(name: &Vec<char>) -> (r: Option<Vec<char>>)
    ensures
        match r {
            Some(e) => ext_of_name(name@) == Some(e@),
            None => ext_of_name(name@) is None,
        },
{
    let mut k = name.len();
    assert(name@.take(k as int) =~= name@);
    while k > 0 && name[k - 1] != '.'
        invariant
            k <= name@.len(),
            last_dot(name@) == last_dot(name@.take(k as int)),
        decreases k,
    {
        proof {
            assert(name@.take(k as int).drop_last() =~= name@.take(k - 1));
        }
        k = k - 1;
    }
    if k == 0 {
        assert(name@.take(0) =~= Seq::<char>::empty());
        return None;
    }
    assert(last_dot(name@.take(k as int)) == Some(k - 1));
    if k == 1 {
        None
    } else {
        Some(slice_chars(name, k, name.len()))
    }
}

/// `Path::new(path).extension()`, as characters.
pub fn extension_chars(path: &str) -> (r: Option<Vec<char>>)
    ensures
        match r {
            Some(e) => extension_spec(path@) == Some(e@),
            None => extension_spec(path@) is None,
        },
{
    match file_name_chars(path) {
        Some(n) => ext_of_name_chars(&n),
        None => None,
    }
}

/// The extension of a path, or the empty text when it has none
/// (`extension().and_then(|e| e.to_str()).unwrap_or("")`).
pub open spec fn ext_or_empty(path: Seq<char>) -> Seq<char> {
    match extension_spec(path) {
        Some(e) => e,
        None => Seq::empty(),
    }
}

/// The icon a file gets by its extension.
pub open spec fn icon_for(ext: Seq<char>) -> Seq<char> {
    if ext == "rs"@ {
        "\u{1f980}"@
    } else if ext == "py"@ {
        "\u{1f40d}"@
    } else if ext == "js"@ || ext == "ts"@ || ext == "tsx"@ || ext == "jsx"@ {
        "\u{1f4dc}"@
    } else if ext == "md"@ {
        "\u{1f4dd}"@
    } else if ext == "toml"@ || ext == "yaml"@ || ext == "yml"@ || ext == "json"@ || ext == "ini"@
        || ext == "cfg"@ {
        "\u{2699}"@
    } else if ext == "png"@ || ext == "jpg"@ || ext == "jpeg"@ || ext == "gif"@ || ext == "svg"@ {
        "\u{1f5bc}"@
    } else if ext == "sh"@ || ext == "bash"@ {
        "\u{1f4b2}"@
    } else if ext == "html"@ || ext == "css"@ {
        "\u{1f310}"@
    } else {
        "\u{1f4c4}"@
    }
}

fn icon_for_ext(e: &Vec<char>) -> (r: &'static str)
    ensures
        r@ == icon_for(e@),
{
    if is_lit(e, "rs") {
        "\u{1f980}"
    } else if is_lit(e, "py") {
        "\u{1f40d}"
    } else if is_lit(e, "js") || is_lit(e, "ts") || is_lit(e, "tsx") || is_lit(e, "jsx") {
        "\u{1f4dc}"
    } else if is_lit(e, "md") {
        "\u{1f4dd}"
    } else if is_lit(e, "toml") || is_lit(e, "yaml") || is_lit(e, "yml") || is_lit(e, "json")
        || is_lit(e, "ini") || is_lit(e, "cfg") {
        "\u{2699}"
    } else if is_lit(e, "png") || is_lit(e, "jpg") || is_lit(e, "jpeg") || is_lit(e, "gif")
        || is_lit(e, "svg") {
        "\u{1f5bc}"
    } else if is_lit(e, "sh") || is_lit(e, "bash") {
        "\u{1f4b2}"
    } else if is_lit(e, "html") || is_lit(e, "css") {
        "\u{1f310}"
    } else {
        "\u{1f4c4}"
    }
}

/// The icon for a file: a crab for Rust, a snake for Python, a scroll for
/// JavaScript and TypeScript, a memo for Markdown, a gear for configuration,
/// a picture for images, a dollar for shell scripts, a globe for HTML and CSS,
/// and a page for anything else.
pub fn file_icon(path: &str) -> (icon: &'static str)
    ensures
        icon@ == icon_for(ext_or_empty(path@)),
{
    match extension_chars(path) {
        Some(e) => icon_for_ext(&e),
        None => {
            let e: Vec<char> = Vec::new();
            assert(e@ =~= Seq::<char>::empty());
            icon_for_ext(&e)
        },
    }
}

/// A text without `/`.
pub open spec fn no_slash(s: Seq<char>) -> bool {
    forall|i: int| 0 <= i < s.len() ==> s[i] != '/'
}

/// A text without `/` is one piece.
proof fn lemma_split_plain(b: Seq<char>)
    requires
        no_slash(b),
    ensures
        split_slash(b) == seq![b],
    decreases b.len(),
{
    if b.len() > 0 {
        assert(b.last() == b[b.len() - 1]);
        assert(b.last() != '/');
        lemma_split_plain(b.drop_last());
        assert(b.drop_last().push(b.last()) =~= b);
        assert(seq![b.drop_last()].update(0, b.drop_last().push(b.last())) =~= seq![b]);
    } else {
        assert(b =~= Seq::<char>::empty());
    }
}

/// Splitting `a/b`, with no `/` in `b`: the pieces of `a`, then `b`.
proof fn lemma_split_after_slash(a: Seq<char>, b: Seq<char>)
    requires
        no_slash(b),
    ensures
        split_slash(a + "/"@ + b) == split_slash(a).push(b),
    decreases b.len(),
{
    reveal_strlit("/");
    let s = a + "/"@ + b;
    if b.len() == 0 {
        assert(b =~= Seq::<char>::empty());
        assert(s =~= a.push('/'));
        assert(s.drop_last() =~= a);
    } else {
        let b0 = b.drop_last();
        assert(b.last() == b[b.len() - 1]);
        assert(b.last() != '/');
        lemma_split_after_slash(a, b0);
        assert(s.drop_last() =~= a + "/"@ + b0);
        assert(s.last() == b.last());
        assert(b0.push(b.last()) =~= b);
        lemma_split_slash_len(a);
        let r = split_slash(a).push(b0);
        assert(r.update(r.len() - 1, r.last().push(b.last())) =~= split_slash(a).push(b));
    }
}

/// The icon of a file depends on its last path component alone: a file
/// named `name` (not empty, without `/`, neither `.` nor `..`) in any folder
/// `dir` gets the extension, and so the icon, that `name` alone gets.
pub proof fn law_icon_by_name(dir: Seq<char>, name: Seq<char>)
    requires
        name.len() > 0,
        no_slash(name),
        name != "."@,
        name != ".."@,
    ensures
        ext_or_empty(dir + "/"@ + name) == ext_or_empty(name),
        icon_for(ext_or_empty(dir + "/"@ + name)) == icon_for(ext_or_empty(name)),
{
    lemma_split_after_slash(dir, name);
    lemma_split_plain(name);
    let r = split_slash(dir);
    assert(r.push(name).drop_last() =~= r);
    assert(components(dir + "/"@ + name) == non_empty(r).push(name));
    assert(seq![name].drop_last() =~= Seq::<Seq<char>>::empty());
    assert(non_empty(Seq::<Seq<char>>::empty()) == Seq::<Seq<char>>::empty());
    assert(Seq::<Seq<char>>::empty().push(name) =~= seq![name]);
    assert(components(name) == seq![name]);
    assert(non_empty(r).push(name).last() == name);
    assert(seq![name].last() == name);
    assert(file_name_spec(dir + "/"@ + name) == Some(name));
    assert(file_name_spec(name) == Some(name));
}

} // verus!

//! The grammar of one repository entry.
use vstd::prelude::*;

use crate::errors::{grammar_view, GrammarError, SourceError, SourceResult};
use crate::text::{
    chars_before, find_char, is_word, is_ws, lemma_chars_before_bound, lemma_chars_before_concat,
    lemma_chars_before_take, lemma_split_append_word, lemma_split_push_ws, lemma_split_words, no_ws,
    replace, replace_all, same_text, split_whitespace, split_ws, views,
};

verus! {

/// An apt source entry.
#[derive(Clone, Debug, PartialEq, Eq, Hash)]
pub struct SourceEntry {
    /// Whether the entry is enabled or not.
    pub enabled: bool,
    /// Whether this is a source (`deb-src`) or a binary (`deb`) repo.
    pub source: bool,
    /// Some repos may have special options defined.
    pub options: Option<String>,
    /// The URL of the repo.
    pub url: String,
    /// The suite of the repo, such as `bionic` or `cosmic`.
    pub suite: String,
    /// Components that have been enabled for this repo.
    pub components: Vec<String>,
}

/// What a `SourceEntry` holds, as plain values.
pub ghost struct EntryView {
    pub enabled: bool,
    pub source: bool,
    pub options: Option<Seq<char>>,
    pub url: Seq<char>,
    pub suite: Seq<char>,
    pub components: Seq<Seq<char>>,
}

/// The character sequence of an optional string.
pub open spec fn opt_view(o: Option<String>) -> Option<Seq<char>> {
    match o {
        Some(s) => Some(s@),
        None => None,
    }
}

impl View for SourceEntry {
    type V = EntryView;

    open spec fn view(&self) -> EntryView {
        EntryView {
            enabled: self.enabled,
            source: self.source,
            options: opt_view(self.options),
            url: self.url@,
            suite: self.suite@,
            components: views(self.components@),
        }
    }
}

/// The first word at or after position `j` that holds a closing bracket.
pub open spec fn close_index(u: Seq<Seq<char>>, j: int) -> Option<int>
    decreases u.len() - j,
{
    if j < 0 || j >= u.len() {
        None
    } else if chars_before(u[j], ']') < u[j].len() {
        Some(j)
    } else {
        close_index(u, j + 1)
    }
}

/// An enabled entry whose suite is word `j` of `t`, and whose components are
/// the words after it; an empty option string stands for no options.
pub open spec fn entry_at(
    source: bool,
    options: Seq<char>,
    url: Seq<char>,
    t: Seq<Seq<char>>,
    j: int,
) -> Result<EntryView, GrammarError> {
    if j >= t.len() {
        Err(GrammarError::Missing("suite"@))
    } else {
        Ok(
            EntryView {
                enabled: true,
                source,
                options: if options.len() == 0 {
                    None
                } else {
                    Some(options)
                },
                url,
                suite: t[j],
                components: t.skip(j + 1),
            },
        )
    }
}

/// The entry that the words `t` of a line describe.
///
/// The first word is the kind. A second word that opens with `[` starts the
/// options, which run, with the words joined without spaces, up to the first
/// `]`; the url is what follows that `]` in the same word, or else the next
/// word. Then come the suite and the components.
pub open spec fn parse_words(t: Seq<Seq<char>>) -> Result<EntryView, GrammarError> {
    if t.len() == 0 {
        Err(GrammarError::Missing("source"@))
    } else if t[0] != "deb"@ && t[0] != "deb-src"@ {
        Err(GrammarError::Invalid("source"@, t[0]))
    } else if t.len() < 2 {
        Err(GrammarError::Missing("url"@))
    } else {
        let source = t[0] != "deb"@;
        if t[1].len() > 0 && t[1][0] == '[' {
            let u = t.update(1, t[1].drop_first());
            match close_index(u, 1) {
                None => Err(GrammarError::Missing("option"@)),
                Some(k) => {
                    let w = u[k];
                    let p = chars_before(w, ']') as int;
                    let options = u.subrange(1, k).flatten_alt() + w.take(p);
                    if p + 1 < w.len() {
                        entry_at(source, options, w.skip(p + 1), t, k + 1)
                    } else if k + 1 < t.len() {
                        entry_at(source, options, t[k + 1], t, k + 2)
                    } else {
                        Err(GrammarError::Missing("url"@))
                    }
                },
            }
        } else {
            entry_at(source, seq![], t[1], t, 2)
        }
    }
}

/// The entry that `line` describes.
pub open spec fn parse_entry(line: Seq<char>) -> Result<EntryView, GrammarError> {
    parse_words(split_ws(line))
}

/// Whether `r` is the outcome that `expected` describes.
pub open spec fn parsed_as(r: SourceResult<SourceEntry>, expected: Result<EntryView, GrammarError>) -> bool {
    match expected {
        Ok(v) => r is Ok && r->Ok_0@ == v,
        Err(g) => r is Err && grammar_view(r->Err_0) == Some(g),
    }
}


/// The words `c`, each preceded by a single space.
pub open spec fn spaced_words(c: Seq<Seq<char>>) -> Seq<char>
    decreases c.len(),
{
    if c.len() == 0 {
        seq![]
    } else {
        spaced_words(c.drop_last()) + " "@ + c.last()
    }
}

/// The line that states the entry `e`: `deb` or `deb-src`, the options in
/// brackets if any, the url, the suite and the components, separated by
/// spaces; a disabled entry is prefixed by `# `.
pub open spec fn entry_text(e: EntryView) -> Seq<char> {
    (if e.enabled {
        seq![]
    } else {
        "# "@
    }) + (if e.source {
        "deb-src "@
    } else {
        "deb "@
    }) + match e.options {
        Some(o) => "["@ + o + "] "@,
        None => seq![],
    } + e.url + " "@ + e.suite + spaced_words(e.components)
}

/// `s` without its trailing slashes.
pub open spec fn strip_slashes(s: Seq<char>) -> Seq<char>
    decreases s.len(),
{
    if s.len() > 0 && s.last() == '/' {
        strip_slashes(s.drop_last())
    } else {
        s
    }
}

/// The number of characters of `s` before the first `//`; the length of `s`
/// when there is none.
pub open spec fn before_double_slash(s: Seq<char>) -> nat
    decreases s.len(),
{
    if s.len() < 2 {
        s.len()
    } else if s[0] == '/' && s[1] == '/' {
        0
    } else {
        1 + before_double_slash(s.drop_first())
    }
}

/// The base file name for an entry with url `url`: the url without its
/// trailing slashes, from its first `//` on if it has one, with each `/`
/// replaced by `_`.
pub open spec fn file_name_of(url: Seq<char>) -> Seq<char> {
    let u = strip_slashes(url);
    let p = before_double_slash(u) as int;
    replace_all(
        if p < u.len() {
            u.skip(p)
        } else {
            u
        },
        "/"@,
        "_"@,
    )
}

/// The dist path of an entry: its url without trailing slashes, then
/// `/dists/` and the suite.
pub open spec fn dist_path_of(e: EntryView) -> Seq<char> {
    strip_slashes(e.url) + "/dists/"@ + e.suite
}

proof fn lemma_before_double_slash_bound(s: Seq<char>)
    ensures
        before_double_slash(s) <= s.len(),
        before_double_slash(s) < s.len() ==> before_double_slash(s) + 1 < s.len(),
    decreases s.len(),
{
    if s.len() >= 2 && !(s[0] == '/' && s[1] == '/') {
        lemma_before_double_slash_bound(s.drop_first());
    }
}

/// The url `s` without its trailing slashes.
fn trim_slashes(s: &str) -> (r: &str)
    ensures
        r@ == strip_slashes(s@),
{
    let mut j = s.unicode_len();
    assert(s@.subrange(0, j as int) =~= s@);
    while j > 0 && s.get_char(j - 1) == '/'
        invariant
            j <= s@.len(),
            strip_slashes(s@) == strip_slashes(s@.subrange(0, j as int)),
        decreases j,
    {
        assert(s@.subrange(0, j as int).drop_last() =~= s@.subrange(0, j - 1));
        j = j - 1;
    }
    s.substring_char(0, j)
}

/// The position of the first `//` in `s`, or its length when there is none.
fn find_double_slash(s: &str) -> (r: usize)
    ensures
        r == before_double_slash(s@),
{
    let n = s.unicode_len();
    let mut i: usize = 0;
    assert(s@.skip(0) =~= s@);
    while n - i > 1
        invariant
            n == s@.len(),
            i <= n,
            before_double_slash(s@) == i + before_double_slash(s@.skip(i as int)),
        decreases n - i,
    {
        if s.get_char(i) == '/' && s.get_char(i + 1) == '/' {
            return i;
        }
        assert(s@.skip(i as int).drop_first() =~= s@.skip(i + 1));
        i = i + 1;
    }
    n
}

/// Whether the entry `e` is written by `entry_text` as a line that reads back
/// as `e`: its url, suite and components are words, its options, if any, a
/// word without `]`, and without options its url does not open with `[`.
pub open spec fn formattable(e: EntryView) -> bool {
    &&& is_word(e.url)
    &&& is_word(e.suite)
    &&& forall|i: int| 0 <= i < e.components.len() ==> is_word(#[trigger] e.components[i])
    &&& match e.options {
        Some(o) => is_word(o) && chars_before(o, ']') == o.len(),
        None => e.url[0] != '[',
    }
}

/// The kind word of an entry.
pub open spec fn kind_word(source: bool) -> Seq<char> {
    if source {
        "deb-src"@
    } else {
        "deb"@
    }
}

/// The words of the line that states the entry `e`.
pub open spec fn entry_words(e: EntryView) -> Seq<Seq<char>> {
    seq![kind_word(e.source)] + match e.options {
        Some(o) => seq![seq!['['] + o + seq![']']],
        None => seq![],
    } + seq![e.url, e.suite] + e.components
}

/// Words each preceded by a space add those words.
pub proof fn lemma_split_spaced(s: Seq<char>, c: Seq<Seq<char>>)
    requires
        forall|i: int| 0 <= i < c.len() ==> is_word(#[trigger] c[i]),
    ensures
        split_ws(s + spaced_words(c)) == split_ws(s) + c,
    decreases c.len(),
{
    reveal_strlit(" ");
    if c.len() == 0 {
        assert(s + spaced_words(c) =~= s);
        assert(split_ws(s) + c =~= split_ws(s));
    } else {
        let c2 = c.drop_last();
        let a = s + spaced_words(c2);
        assert forall|i: int| 0 <= i < c2.len() implies is_word(#[trigger] c2[i]) by {
            assert(c2[i] == c[i]);
        }
        lemma_split_spaced(s, c2);
        lemma_split_push_ws(a, ' ');
        assert(is_word(c[c.len() - 1]));
        lemma_split_append_word(a.push(' '), c.last());
        assert(s + spaced_words(c) =~= a.push(' ') + c.last());
        assert((split_ws(s) + c2).push(c.last()) =~= split_ws(s) + c);
    }
}

/// The line that states an entry that `formattable` admits splits into the
/// entry's words.
pub proof fn lemma_text_words(e: EntryView)
    requires
        formattable(e),
    ensures
        split_ws(entry_text(EntryView { enabled: true, ..e })) == entry_words(e),
{
    reveal_strlit("deb ");
    reveal_strlit("deb-src ");
    reveal_strlit("deb");
    reveal_strlit("deb-src");
    reveal_strlit("[");
    reveal_strlit("] ");
    reveal_strlit(" ");
    let kind = kind_word(e.source);
    assert(is_word(kind));
    let empty = Seq::<char>::empty();
    lemma_split_append_word(empty, kind);
    assert(empty + kind =~= kind);
    lemma_split_push_ws(kind, ' ');
    let k1 = kind.push(' ');
    let (a, before_url) = match e.options {
        Some(o) => {
            let w = seq!['['] + o + seq![']'];
            assert(is_word(w));
            lemma_split_append_word(k1, w);
            lemma_split_push_ws(k1 + w, ' ');
            ((k1 + w).push(' '), seq![kind, w])
        },
        None => (k1, seq![kind]),
    };
    assert(split_ws(empty) =~= Seq::<Seq<char>>::empty());
    assert(split_ws(a) =~= before_url);
    lemma_split_append_word(a, e.url);
    lemma_split_push_ws(a + e.url, ' ');
    let b = (a + e.url).push(' ');
    lemma_split_append_word(b, e.suite);
    let d = b + e.suite;
    lemma_split_spaced(d, e.components);
    assert(entry_text(EntryView { enabled: true, ..e }) =~= d + spaced_words(e.components));
    assert(split_ws(d) =~= before_url + seq![e.url, e.suite]);
    assert(entry_words(e) =~= before_url + seq![e.url, e.suite] + e.components);
}

/// The words of an entry that `formattable` admits parse as that entry,
/// enabled.
pub proof fn lemma_parse_entry_words(e: EntryView)
    requires
        formattable(e),
    ensures
        parse_words(entry_words(e)) == Ok::<EntryView, GrammarError>(EntryView { enabled: true, ..e }),
{
    reveal_strlit("deb");
    reveal_strlit("deb-src");
    let t = entry_words(e);
    let kind = kind_word(e.source);
    assert(t[0] == kind);
    assert(kind != "deb"@ <==> e.source);
    match e.options {
        Some(o) => {
            let w = seq!['['] + o + seq![']'];
            assert(t[1] == w);
            assert(t[2] == e.url);
            assert(t[3] == e.suite);
            assert(t.skip(4) =~= e.components);
            let u = t.update(1, t[1].drop_first());
            assert(u[1] =~= o + seq![']']);
            lemma_chars_before_concat(o, seq![']'], ']');
            assert(chars_before(u[1], ']') == o.len());
            assert(close_index(u, 1) == Some(1int));
            assert(u.subrange(1, 1).flatten_alt() =~= Seq::<char>::empty());
            assert(u[1].take(o.len() as int) =~= o);
        },
        None => {
            assert(t[1] == e.url);
            assert(t[2] == e.suite);
            assert(t.skip(3) =~= e.components);
        },
    }
}

/// Formatting an enabled entry that `formattable` admits, then parsing the
/// line, gives the entry back.
pub proof fn lemma_format_then_parse(e: EntryView)
    requires
        formattable(e),
        e.enabled,
    ensures
        parse_entry(entry_text(e)) == Ok::<EntryView, GrammarError>(e),
{
    lemma_text_words(e);
    lemma_parse_entry_words(e);
    assert(EntryView { enabled: true, ..e } == e);
}

proof fn lemma_close_index(u: Seq<Seq<char>>, j: int)
    requires
        0 <= j,
        close_index(u, j) is Some,
    ensures
        j <= close_index(u, j)->Some_0 < u.len(),
        chars_before(u[close_index(u, j)->Some_0], ']') < u[close_index(u, j)->Some_0].len(),
        forall|m: int|
            j <= m < close_index(u, j)->Some_0 ==> chars_before(#[trigger] u[m], ']') == u[m].len(),
    decreases u.len() - j,
{
    if chars_before(u[j], ']') >= u[j].len() {
        lemma_close_index(u, j + 1);
        lemma_chars_before_bound(u[j], ']');
    }
}

proof fn lemma_no_ws_concat(a: Seq<char>, b: Seq<char>)
    requires
        no_ws(a),
        no_ws(b),
    ensures
        no_ws(a + b),
{
    assert forall|i: int| 0 <= i < (a + b).len() implies !is_ws(#[trigger] (a + b)[i]) by {
        if i < a.len() {
            assert((a + b)[i] == a[i]);
        } else {
            assert((a + b)[i] == b[i - a.len()]);
        }
    }
}

proof fn lemma_flatten_no_ws(v: Seq<Seq<char>>)
    requires
        forall|i: int| 0 <= i < v.len() ==> no_ws(#[trigger] v[i]),
    ensures
        no_ws(v.flatten_alt()),
    decreases v.len(),
{
    if v.len() > 0 {
        let v2 = v.drop_last();
        assert forall|i: int| 0 <= i < v2.len() implies no_ws(#[trigger] v2[i]) by {
            assert(v2[i] == v[i]);
        }
        lemma_flatten_no_ws(v2);
        assert(no_ws(v[v.len() - 1]));
        lemma_no_ws_concat(v2.flatten_alt(), v.last());
    }
}

proof fn lemma_flatten_no_close(v: Seq<Seq<char>>)
    requires
        forall|i: int| 0 <= i < v.len() ==> chars_before(#[trigger] v[i], ']') == v[i].len(),
    ensures
        chars_before(v.flatten_alt(), ']') == v.flatten_alt().len(),
    decreases v.len(),
{
    if v.len() > 0 {
        let v2 = v.drop_last();
        assert forall|i: int| 0 <= i < v2.len() implies chars_before(#[trigger] v2[i], ']')
            == v2[i].len() by {
            assert(v2[i] == v[i]);
        }
        lemma_flatten_no_close(v2);
        assert(chars_before(v[v.len() - 1], ']') == v[v.len() - 1].len());
        lemma_chars_before_concat(v2.flatten_alt(), v.last(), ']');
    }
}

/// An entry that a line parses as is `formattable`, unless its option
/// brackets held nothing and its url opens with `[`.
pub proof fn lemma_parsed_formattable(line: Seq<char>)
    requires
        parse_entry(line) is Ok,
        !(parse_entry(line)->Ok_0.options is None && parse_entry(line)->Ok_0.url[0] == '['),
    ensures
        formattable(parse_entry(line)->Ok_0),
        parse_entry(line)->Ok_0.enabled,
{
    let t = split_ws(line);
    lemma_split_words(line);
    let e = parse_entry(line)->Ok_0;
    let source = t[0] != "deb"@;
    assert(is_word(t[1]));
    if t[1].len() > 0 && t[1][0] == '[' {
        let u = t.update(1, t[1].drop_first());
        lemma_close_index(u, 1);
        let k = close_index(u, 1)->Some_0;
        let w = u[k];
        let p = chars_before(w, ']') as int;
        let opts = u.subrange(1, k).flatten_alt() + w.take(p);
        assert forall|i: int| 1 <= i < u.len() implies no_ws(#[trigger] u[i]) by {
            if i == 1 {
                assert forall|x: int| 0 <= x < u[1].len() implies !is_ws(#[trigger] u[1][x]) by {
                    assert(u[1][x] == t[1][x + 1]);
                }
            } else {
                assert(is_word(t[i]));
            }
        }
        let mid = u.subrange(1, k);
        assert forall|i: int| 0 <= i < mid.len() implies no_ws(#[trigger] mid[i]) by {
            assert(mid[i] == u[i + 1]);
        }
        assert forall|i: int| 0 <= i < mid.len() implies chars_before(#[trigger] mid[i], ']') == mid[i].len() by {
            assert(mid[i] == u[i + 1]);
        }
        lemma_flatten_no_ws(mid);
        lemma_flatten_no_close(mid);
        lemma_chars_before_take(w, ']');
        assert(no_ws(w));
        assert forall|x: int| 0 <= x < w.take(p).len() implies !is_ws(#[trigger] w.take(p)[x]) by {
            assert(w.take(p)[x] == w[x]);
        }
        lemma_no_ws_concat(mid.flatten_alt(), w.take(p));
        lemma_chars_before_concat(mid.flatten_alt(), w.take(p), ']');
        if p + 1 < w.len() {
            let url = w.skip(p + 1);
            assert forall|x: int| 0 <= x < url.len() implies !is_ws(#[trigger] url[x]) by {
                assert(url[x] == w[x + p + 1]);
            }
            assert(e.url == url);
        } else {
            assert(e.url == t[k + 1]);
        }
    } else {
        assert(e.url == t[1]);
    }
    assert forall|i: int| 0 <= i < e.components.len() implies is_word(#[trigger] e.components[i]) by {
        assert(e.components[i] == t[t.len() - e.components.len() + i]);
    }
}

/// A line that parses as an entry states, once formatted again, the same
/// kind, options, url, suite and components, unless its option brackets held
/// nothing and its url opens with `[`.
pub proof fn lemma_parse_then_format(line: Seq<char>)
    requires
        parse_entry(line) is Ok,
        !(parse_entry(line)->Ok_0.options is None && parse_entry(line)->Ok_0.url[0] == '['),
    ensures
        parse_entry(entry_text(parse_entry(line)->Ok_0)) == parse_entry(line),
{
    lemma_parsed_formattable(line);
    lemma_format_then_parse(parse_entry(line)->Ok_0);
}

impl SourceEntry {
    /// Parses one entry line.
    pub fn parse_line(line: &str) -> (r: SourceResult<Self>)
        ensures
            parsed_as(r, parse_entry(line@)),
    {
        let words = split_whitespace(line);
        let ghost t = views(words@);
        let n = words.len();
        if n == 0 {
            return Err(SourceError::MissingField { field: "source" });
        }
        let kind = words[0].as_str();
        let source: bool;
        if same_text(kind, "deb") {
            source = false;
        } else if same_text(kind, "deb-src") {
            source = true;
        } else {
            return Err(SourceError::InvalidValue { field: "source", value: words[0].clone() });
        }
        if n < 2 {
            return Err(SourceError::MissingField { field: "url" });
        }
        let second = words[1].as_str();
        let second_len = second.unicode_len();
        let mut options = String::new();
        let url: String;
        let suite_at: usize;
        if second_len > 0 && second.get_char(0) == '[' {
            let ghost u = t.update(1, t[1].drop_first());
            assert(t[1].len() > 0 && t[1][0] == '[');
            assert(t[0] == "deb"@ || t[0] == "deb-src"@);
            let mut k: usize = 1;
            let mut word: &str = second.substring_char(1, second_len);
            assert(u.subrange(1, 1).flatten_alt() =~= Seq::<char>::empty());
            let mut found = find_char(word, ']');
            while found.is_none()
                invariant
                    n == words@.len(),
                    t == views(words@),
                    t == split_ws(line@),
                    t.len() == n,
                    n >= 2,
                    t[0] == "deb"@ || t[0] == "deb-src"@,
                    t[1].len() > 0 && t[1][0] == '[',
                    u == t.update(1, t[1].drop_first()),
                    1 <= k < n,
                    word@ == u[k as int],
                    options@ == u.subrange(1, k as int).flatten_alt(),
                    close_index(u, 1) == close_index(u, k as int),
                    found is None <==> chars_before(word@, ']') == word@.len(),
                    found is Some ==> found == Some(chars_before(word@, ']') as usize),
                    chars_before(word@, ']') <= word@.len(),
                decreases n - k,
            {
                options.append(word);
                assert(u.subrange(1, k + 1).drop_last() =~= u.subrange(1, k as int));
                assert(close_index(u, k as int) == close_index(u, k + 1));
                k = k + 1;
                if k >= n {
                    assert(close_index(u, k as int) is None);
                    assert(close_index(u, 1) is None);
                    return Err(SourceError::MissingField { field: "option" });
                }
                word = words[k].as_str();
                found = find_char(word, ']');
            }
            let p = found.unwrap();
            let word_len = word.unicode_len();
            assert(close_index(u, k as int) == Some(k as int));
            options.append(word.substring_char(0, p));
            if p + 1 < word_len {
                url = String::from_str(word.substring_char(p + 1, word_len));
                suite_at = k + 1;
            } else if k + 1 < n {
                url = words[k + 1].clone();
                suite_at = k + 2;
            } else {
                return Err(SourceError::MissingField { field: "url" });
            }
        } else {
            url = words[1].clone();
            suite_at = 2;
            assert(options@ =~= Seq::<char>::empty());
        }
        if suite_at >= n {
            return Err(SourceError::MissingField { field: "suite" });
        }
        let first: usize = suite_at + 1;
        let suite = words[suite_at].clone();
        let mut components: Vec<String> = Vec::new();
        let mut j: usize = first;
        assert(views(components@) =~= t.subrange(first as int, first as int));
        while j < n
            invariant
                n == words@.len(),
                t == views(words@),
                t.len() == n,
                first <= n,
                first <= j <= n,
                views(components@) == t.subrange(first as int, j as int),
            decreases n - j,
        {
            let ghost before = views(components@);
            components.push(words[j].clone());
            assert(views(components@) =~= before.push(t[j as int]));
            assert(t.subrange(first as int, j + 1).drop_last() =~= t.subrange(first as int, j as int));
            assert(t.subrange(first as int, j + 1).last() == t[j as int]);
            assert(views(components@) =~= t.subrange(first as int, j + 1));
            j = j + 1;
        }
        assert(t.subrange(first as int, n as int) =~= t.skip(first as int));
        let options = if options.unicode_len() == 0 {
            None
        } else {
            Some(options)
        };
        Ok(SourceEntry { enabled: true, source, options, url, suite, components })
    }

    /// The line that states this entry.
    pub fn to_string(&self) -> (r: String)
        ensures
            r@ == entry_text(self@),
    {
        let mut out = String::new();
        if !self.enabled {
            out.append("# ");
        }
        if self.source {
            out.append("deb-src ");
        } else {
            out.append("deb ");
        }
        match &self.options {
            Some(o) => {
                out.append("[");
                out.append(o.as_str());
                out.append("] ");
            },
            None => {},
        }
        out.append(self.url.as_str());
        out.append(" ");
        out.append(self.suite.as_str());
        let ghost head = out@;
        let ghost c = views(self.components@);
        let n = self.components.len();
        let mut i: usize = 0;
        assert(c.take(0) =~= Seq::<Seq<char>>::empty());
        assert(head =~= head + spaced_words(c.take(0)));
        while i < n
            invariant
                n == c.len(),
                c == views(self.components@),
                i <= n,
                out@ == head + spaced_words(c.take(i as int)),
            decreases n - i,
        {
            out.append(" ");
            out.append(self.components[i].as_str());
            assert(c.take(i + 1).drop_last() =~= c.take(i as int));
            i = i + 1;
        }
        assert(c.take(n as int) =~= c);
        out
    }

    /// The url without its trailing slashes.
    pub fn url(&self) -> (r: &str)
        ensures
            r@ == strip_slashes(self.url@),
    {
        trim_slashes(self.url.as_str())
    }

    /// The base filename to be used when storing files for this entry.
    pub fn filename(&self) -> (r: String)
        ensures
            r@ == file_name_of(self.url@),
    {
        let url = self.url();
        let n = url.unicode_len();
        let pos = find_double_slash(url);
        proof {
            lemma_before_double_slash_bound(url@);
        }
        let tail = if pos < n {
            url.substring_char(pos, n)
        } else {
            url
        };
        assert(pos < n ==> tail@ =~= url@.skip(pos as int));
        replace(tail, "/", "_")
    }

    /// The root URL of this entry's dist path: for
    /// `deb http://us.archive.ubuntu.com/ubuntu/ cosmic main`, it is
    /// `http://us.archive.ubuntu.com/ubuntu/dists/cosmic`.
    pub fn dist_path(&self) -> (r: String)
        ensures
            r@ == dist_path_of(self@),
    {
        let mut out = String::from_str(self.url());
        out.append("/dists/");
        out.append(self.suite.as_str());
        out
    }

    /// The path `path` under this entry's dist path.
    pub fn dist_path_get(&self, path: &str) -> (r: String)
        ensures
            r@ == dist_path_of(self@) + "/"@ + path@,
    {
        let mut out = self.dist_path();
        out.append("/");
        out.append(path);
        out
    }

    /// The dist path of each component of this entry, in order.
    pub fn dist_components(&self) -> (r: Vec<String>)
        ensures
            r@.len() == self.components@.len(),
            forall|i: int|
                0 <= i < r@.len() ==> #[trigger] r@[i]@ == dist_path_of(self@) + "/"@
                    + self.components@[i]@,
    {
        let mut out: Vec<String> = Vec::new();
        let n = self.components.len();
        let mut i: usize = 0;
        while i < n
            invariant
                n == self.components@.len(),
                i <= n,
                out@.len() == i,
                forall|k: int|
                    0 <= k < i ==> #[trigger] out@[k]@ == dist_path_of(self@) + "/"@
                        + self.components@[k]@,
            decreases n - i,
        {
            out.push(self.dist_path_get(self.components[i].as_str()));
            i = i + 1;
        }
        out
    }

    /// The root URL of this entry's pool path: for
    /// `deb http://us.archive.ubuntu.com/ubuntu/ cosmic main`, it is
    /// `http://us.archive.ubuntu.com/ubuntu/pool/`.
    pub fn pool_path(&self) -> (r: String)
        ensures
            r@ == strip_slashes(self.url@) + "/pool/"@,
    {
        let mut out = String::from_str(self.url());
        out.append("/pool/");
        out
    }
}

impl std::str::FromStr for SourceEntry {
    type Err = SourceError;

    fn from_str(line: &str) -> (r: Result<Self, Self::Err>)
        ensures
            parsed_as(r, parse_entry(line@)),
    {
        SourceEntry::parse_line(line)
    }
}

} // verus!

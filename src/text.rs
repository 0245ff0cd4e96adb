//! Character-level helpers: whitespace, words, trimming and substitution.
use vstd::prelude::*;

verus! {

/// Whether `c` has the Unicode `White_Space` property.
pub open spec fn is_ws(c: char) -> bool {
    let n = c as u32;
    (9 <= n <= 13) || n == 32 || n == 0x85 || n == 0xa0 || n == 0x1680 || (0x2000 <= n
        <= 0x200a) || n == 0x2028 || n == 0x2029 || n == 0x202f || n == 0x205f || n == 0x3000
}

/// Whether `s` holds no whitespace character.
pub open spec fn no_ws(s: Seq<char>) -> bool {
    forall|i: int| 0 <= i < s.len() ==> !is_ws(#[trigger] s[i])
}

/// The words of `s`: its maximal runs of non-whitespace characters, in order.
///
/// Stated from the end of `s`: a non-whitespace character extends the last
/// word when it follows another one, and starts a new word otherwise.
pub open spec fn split_ws(s: Seq<char>) -> Seq<Seq<char>>
    decreases s.len(),
{
    if s.len() == 0 {
        seq![]
    } else {
        let init = s.drop_last();
        let c = s.last();
        let words = split_ws(init);
        if is_ws(c) {
            words
        } else if init.len() > 0 && !is_ws(init.last()) {
            words.drop_last().push(words.last().push(c))
        } else {
            words.push(seq![c])
        }
    }
}

/// The character sequences of a list of strings.
pub open spec fn views(v: Seq<String>) -> Seq<Seq<char>> {
    v.map_values(|s: String| s@)
}

/// Whether `c` is a whitespace character (the `White_Space` property).
pub fn is_whitespace(c: char) -> (r: bool)
    ensures
        r == is_ws(c),
{
    let n = c as u32;
    (9 <= n && n <= 13) || n == 32 || n == 0x85 || n == 0xa0 || n == 0x1680 || (0x2000 <= n && n
        <= 0x200a) || n == 0x2028 || n == 0x2029 || n == 0x202f || n == 0x205f || n == 0x3000
}

/// Splits `s` into its whitespace-separated words.
pub fn split_whitespace(s: &str) -> (r: Vec<String>)
    ensures
        views(r@) == split_ws(s@),
{
    let n = s.unicode_len();
    let mut words: Vec<String> = Vec::new();
    let mut in_word = false;
    let mut start: usize = 0;
    let mut i: usize = 0;
    while i < n
        invariant
            n == s@.len(),
            i <= n,
            start <= i,
            in_word ==> start < i && !is_ws(s@[i - 1]),
            in_word ==> views(words@).push(s@.subrange(start as int, i as int)) == split_ws(
                s@.take(i as int),
            ),
            !in_word ==> views(words@) == split_ws(s@.take(i as int)),
            !in_word ==> i == 0 || is_ws(s@[i - 1]),
        decreases n - i,
    {
        let c = s.get_char(i);
        let ghost pre = s@.take(i as int);
        assert(s@.take(i + 1).drop_last() =~= pre);
        if is_whitespace(c) {
            if in_word {
                let w = String::from_str(s.substring_char(start, i));
                words.push(w);
                assert(views(words@) =~= split_ws(pre));
            }
            in_word = false;
        } else if in_word {
            assert(s@.subrange(start as int, i as int).push(c) =~= s@.subrange(
                start as int,
                i + 1,
            ));
            assert(split_ws(pre).drop_last() =~= views(words@));
        } else {
            start = i;
            assert(s@.subrange(start as int, i + 1) =~= seq![c]);
        }
        if !is_whitespace(c) {
            in_word = true;
        }
        i = i + 1;
    }
    if in_word {
        let w = String::from_str(s.substring_char(start, i));
        words.push(w);
    }
    assert(s@.take(n as int) =~= s@);
    assert(views(words@) =~= split_ws(s@));
    words
}

/// `s` without its leading whitespace.
pub open spec fn trim_start(s: Seq<char>) -> Seq<char>
    decreases s.len(),
{
    if s.len() > 0 && is_ws(s[0]) {
        trim_start(s.drop_first())
    } else {
        s
    }
}

/// `s` without its trailing whitespace.
pub open spec fn trim_end(s: Seq<char>) -> Seq<char>
    decreases s.len(),
{
    if s.len() > 0 && is_ws(s.last()) {
        trim_end(s.drop_last())
    } else {
        s
    }
}

/// `s` without its leading and trailing whitespace.
pub open spec fn trimmed(s: Seq<char>) -> Seq<char> {
    trim_end(trim_start(s))
}

/// The number of characters of `s` before the first `c`; the length of `s`
/// when `c` does not occur.
pub open spec fn chars_before(s: Seq<char>, c: char) -> nat
    decreases s.len(),
{
    if s.len() == 0 || s[0] == c {
        0
    } else {
        1 + chars_before(s.drop_first(), c)
    }
}

/// `s` with every non-overlapping occurrence of `p`, from the left, replaced
/// by `t`. An empty `p` matches before every character and at the end.
pub open spec fn replace_all(s: Seq<char>, p: Seq<char>, t: Seq<char>) -> Seq<char>
    decreases s.len(),
{
    if p.len() == 0 {
        if s.len() == 0 {
            t
        } else {
            t + seq![s[0]] + replace_all(s.drop_first(), p, t)
        }
    } else if s.len() < p.len() {
        s
    } else if s.take(p.len() as int) == p {
        t + replace_all(s.skip(p.len() as int), p, t)
    } else {
        seq![s[0]] + replace_all(s.drop_first(), p, t)
    }
}

/// The pieces of `s` between newline characters: one more than there are
/// newlines.
pub open spec fn segments(s: Seq<char>) -> Seq<Seq<char>>
    decreases s.len(),
{
    if s.len() == 0 {
        seq![seq![]]
    } else {
        let p = segments(s.drop_last());
        if s.last() == '\n' {
            p.push(seq![])
        } else {
            p.drop_last().push(p.last().push(s.last()))
        }
    }
}

/// The lines of `s`; a final newline ends the last line and starts no new one.
pub open spec fn lines_of(s: Seq<char>) -> Seq<Seq<char>> {
    if s.len() == 0 {
        seq![]
    } else if s.last() == '\n' {
        segments(s.drop_last())
    } else {
        segments(s)
    }
}

/// `s` without its leading and trailing whitespace.
pub fn trim(s: &str) -> (r: &str)
    ensures
        r@ == trimmed(s@),
{
    let n = s.unicode_len();
    let mut i: usize = 0;
    assert(s@.skip(0) =~= s@);
    while i < n && is_whitespace(s.get_char(i))
        invariant
            n == s@.len(),
            i <= n,
            trim_start(s@) == trim_start(s@.skip(i as int)),
        decreases n - i,
    {
        assert(s@.skip(i as int).drop_first() =~= s@.skip(i + 1));
        i = i + 1;
    }
    let mut j: usize = n;
    assert(s@.skip(i as int) =~= s@.subrange(i as int, j as int));
    while j > i && is_whitespace(s.get_char(j - 1))
        invariant
            n == s@.len(),
            i <= j <= n,
            trim_start(s@) == s@.skip(i as int),
            trim_end(s@.skip(i as int)) == trim_end(s@.subrange(i as int, j as int)),
        decreases j - i,
    {
        assert(s@.subrange(i as int, j as int).drop_last() =~= s@.subrange(i as int, j - 1));
        j = j - 1;
    }
    s.substring_char(i, j)
}

pub proof fn lemma_chars_before_bound(s: Seq<char>, c: char)
    ensures
        chars_before(s, c) <= s.len(),
    decreases s.len(),
{
    if s.len() > 0 && s[0] != c {
        lemma_chars_before_bound(s.drop_first(), c);
    }
}

/// Replacing a text by itself changes nothing.
pub proof fn lemma_replace_same(s: Seq<char>, p: Seq<char>)
    ensures
        replace_all(s, p, p) == s,
    decreases s.len(),
{
    if p.len() == 0 {
        if s.len() > 0 {
            lemma_replace_same(s.drop_first(), p);
            assert(p + seq![s[0]] + s.drop_first() =~= s);
        }
    } else if s.len() >= p.len() {
        if s.take(p.len() as int) == p {
            lemma_replace_same(s.skip(p.len() as int), p);
            assert(p + s.skip(p.len() as int) =~= s);
        } else {
            lemma_replace_same(s.drop_first(), p);
            assert(seq![s[0]] + s.drop_first() =~= s);
        }
    }
}

/// Whether `w` is a word: non-empty, without whitespace.
pub open spec fn is_word(w: Seq<char>) -> bool {
    w.len() > 0 && no_ws(w)
}

/// A whitespace character at the end starts no word.
pub proof fn lemma_split_push_ws(s: Seq<char>, c: char)
    requires
        is_ws(c),
    ensures
        split_ws(s.push(c)) == split_ws(s),
{
    assert(s.push(c).drop_last() =~= s);
}

/// A word after whitespace (or at the start) is a word of its own.
pub proof fn lemma_split_append_word(s: Seq<char>, w: Seq<char>)
    requires
        s.len() == 0 || is_ws(s.last()),
        is_word(w),
    ensures
        split_ws(s + w) == split_ws(s).push(w),
    decreases w.len(),
{
    let x = s + w;
    assert(x.drop_last() =~= s + w.drop_last());
    assert(x.last() == w.last());
    if w.len() == 1 {
        assert(s + w.drop_last() =~= s);
        assert(seq![w.last()] =~= w);
    } else {
        let w2 = w.drop_last();
        assert(no_ws(w2));
        lemma_split_append_word(s, w2);
        assert((s + w2).last() == w2.last());
        assert(split_ws(s).push(w2).drop_last() =~= split_ws(s));
        assert(w2.push(w.last()) =~= w);
    }
}

/// Whitespace in front starts no word.
pub proof fn lemma_split_front_ws(c: char, s: Seq<char>)
    requires
        is_ws(c),
    ensures
        split_ws(seq![c] + s) == split_ws(s),
    decreases s.len(),
{
    let x = seq![c] + s;
    if s.len() == 0 {
        assert(x =~= seq![c]);
        assert(x.drop_last() =~= Seq::<char>::empty());
        assert(split_ws(x) == split_ws(Seq::<char>::empty()));
        assert(s =~= Seq::<char>::empty());
        assert(split_ws(x) == split_ws(s));
    } else {
        let s2 = s.drop_last();
        let d = s.last();
        let y = seq![c] + s2;
        assert(x.drop_last() =~= y);
        assert(x.last() == d);
        lemma_split_front_ws(c, s2);
        assert(split_ws(y) == split_ws(s2));
        if is_ws(d) {
            assert(split_ws(x) == split_ws(y));
        } else if s2.len() > 0 {
            assert(y.last() == s2.last());
            if !is_ws(s2.last()) {
                assert(split_ws(x) == split_ws(y).drop_last().push(split_ws(y).last().push(d)));
            } else {
                assert(split_ws(x) == split_ws(y).push(seq![d]));
            }
        } else {
            assert(y =~= seq![c]);
            assert(y.last() == c);
            assert(split_ws(x) == split_ws(y).push(seq![d]));
            assert(split_ws(s) == split_ws(s2).push(seq![d]));
        }
        assert(split_ws(x) == split_ws(s));
    }
}

/// Leading whitespace starts no word.
pub proof fn lemma_split_trim_start(s: Seq<char>)
    ensures
        split_ws(trim_start(s)) == split_ws(s),
    decreases s.len(),
{
    if s.len() > 0 && is_ws(s[0]) {
        lemma_split_trim_start(s.drop_first());
        lemma_split_front_ws(s[0], s.drop_first());
        assert(seq![s[0]] + s.drop_first() =~= s);
    }
}

/// Trailing whitespace starts no word.
pub proof fn lemma_split_trim_end(s: Seq<char>)
    ensures
        split_ws(trim_end(s)) == split_ws(s),
    decreases s.len(),
{
    if s.len() > 0 && is_ws(s.last()) {
        lemma_split_trim_end(s.drop_last());
    }
}

/// Trimming keeps the words.
pub proof fn lemma_split_trimmed(s: Seq<char>)
    ensures
        split_ws(trimmed(s)) == split_ws(s),
{
    lemma_split_trim_start(s);
    lemma_split_trim_end(trim_start(s));
}

/// A non-whitespace first character stays first when trailing whitespace
/// goes.
pub proof fn lemma_trim_end_front(c: char, s: Seq<char>)
    requires
        !is_ws(c),
    ensures
        trim_end(seq![c] + s) == seq![c] + trim_end(s),
    decreases s.len(),
{
    let x = seq![c] + s;
    if s.len() > 0 {
        assert(x.drop_last() =~= seq![c] + s.drop_last());
        assert(x.last() == s.last());
        lemma_trim_end_front(c, s.drop_last());
    } else {
        assert(x =~= seq![c]);
        assert(x.last() == c);
        assert(seq![c] + s =~= seq![c]);
    }
}

/// Every word of `s` is a word.
pub proof fn lemma_split_words(s: Seq<char>)
    ensures
        forall|i: int| 0 <= i < split_ws(s).len() ==> is_word(#[trigger] split_ws(s)[i]),
    decreases s.len(),
{
    if s.len() > 0 {
        let init = s.drop_last();
        lemma_split_words(init);
        let w = split_ws(init);
        if !is_ws(s.last()) && init.len() > 0 && !is_ws(init.last()) {
            if w.len() > 0 {
                let l = w.last().push(s.last());
                assert(is_word(w[w.len() - 1]));
                assert(is_word(l));
                assert(split_ws(s) == w.drop_last().push(l));
                assert forall|i: int| 0 <= i < split_ws(s).len() implies is_word(#[trigger] split_ws(s)[i]) by {
                    if i < w.len() - 1 {
                        assert(split_ws(s)[i] == w[i]);
                    }
                }
            } else {
                lemma_split_last_word(init);
            }
        }
    }
}

/// A text that ends in a non-whitespace character has a word.
proof fn lemma_split_last_word(s: Seq<char>)
    requires
        s.len() > 0,
        !is_ws(s.last()),
    ensures
        split_ws(s).len() > 0,
{
}

/// Where the first `c` of `a + b` is.
pub proof fn lemma_chars_before_concat(a: Seq<char>, b: Seq<char>, c: char)
    ensures
        chars_before(a + b, c) == if chars_before(a, c) < a.len() {
            chars_before(a, c)
        } else {
            a.len() + chars_before(b, c)
        },
    decreases a.len(),
{
    lemma_chars_before_bound(a, c);
    if a.len() == 0 {
        assert(a + b =~= b);
    } else {
        assert((a + b).drop_first() =~= a.drop_first() + b);
        lemma_chars_before_concat(a.drop_first(), b, c);
    }
}

/// The characters before the first `c` hold no `c`.
pub proof fn lemma_chars_before_take(s: Seq<char>, c: char)
    ensures
        chars_before(s.take(chars_before(s, c) as int), c) == chars_before(s, c),
        chars_before(s, c) <= s.len(),
    decreases s.len(),
{
    lemma_chars_before_bound(s, c);
    let p = chars_before(s, c) as int;
    if s.len() > 0 && s[0] != c {
        lemma_chars_before_take(s.drop_first(), c);
        assert(s.take(p).drop_first() =~= s.drop_first().take(p - 1));
    }
}

/// Whether `a` and `b` hold the same characters.
pub fn same_text(a: &str, b: &str) -> (r: bool)
    ensures
        r == (a@ == b@),
{
    let n = a.unicode_len();
    if n != b.unicode_len() {
        return false;
    }
    let mut i: usize = 0;
    while i < n
        invariant
            n == a@.len() == b@.len(),
            i <= n,
            a@.take(i as int) == b@.take(i as int),
        decreases n - i,
    {
        if a.get_char(i) != b.get_char(i) {
            return false;
        }
        assert(a@.take(i + 1) =~= a@.take(i as int).push(a@[i as int]));
        assert(b@.take(i + 1) =~= b@.take(i as int).push(b@[i as int]));
        i = i + 1;
    }
    assert(a@ =~= a@.take(n as int));
    assert(b@ =~= b@.take(n as int));
    true
}

/// Whether `s` begins with `p`.
pub fn starts_with(s: &str, p: &str) -> (r: bool)
    ensures
        r == p@.is_prefix_of(s@),
{
    let m = p.unicode_len();
    if m > s.unicode_len() {
        return false;
    }
    same_text(s.substring_char(0, m), p)
}

/// The position of the first `c` in `s`, if any.
pub fn find_char(s: &str, c: char) -> (r: Option<usize>)
    ensures
        chars_before(s@, c) < s@.len() ==> r == Some(chars_before(s@, c) as usize),
        chars_before(s@, c) == s@.len() ==> r is None,
        chars_before(s@, c) <= s@.len(),
{
    let n = s.unicode_len();
    let mut i: usize = 0;
    assert(s@.skip(0) =~= s@);
    proof {
        lemma_chars_before_bound(s@, c);
    }
    while i < n
        invariant
            n == s@.len(),
            i <= n,
            chars_before(s@, c) == i + chars_before(s@.skip(i as int), c),
            chars_before(s@.skip(i as int), c) <= n - i,
        decreases n - i,
    {
        assert(s@.skip(i as int).drop_first() =~= s@.skip(i + 1));
        if s.get_char(i) == c {
            return Some(i);
        }
        i = i + 1;
    }
    None
}

/// `s` with every occurrence of `p` replaced by `t`, scanning from the left.
pub fn replace(s: &str, p: &str, t: &str) -> (r: String)
    ensures
        r@ == replace_all(s@, p@, t@),
{
    let n = s.unicode_len();
    let m = p.unicode_len();
    let mut out = String::new();
    let mut i: usize = 0;
    assert(s@.skip(0) =~= s@);
    assert(out@ + replace_all(s@, p@, t@) =~= replace_all(s@, p@, t@));
    if m == 0 {
        while i < n
            invariant
                n == s@.len(),
                m == p@.len() == 0,
                i <= n,
                out@ + replace_all(s@.skip(i as int), p@, t@) == replace_all(s@, p@, t@),
            decreases n - i,
        {
            assert(s@.skip(i as int).drop_first() =~= s@.skip(i + 1));
            out.append(t);
            out.append(s.substring_char(i, i + 1));
            assert(s@.subrange(i as int, i + 1) =~= seq![s@[i as int]]);
            i = i + 1;
        }
        out.append(t);
        assert(s@.skip(n as int) =~= Seq::<char>::empty());
        return out;
    }
    while i < n
        invariant
            n == s@.len(),
            m == p@.len() > 0,
            i <= n,
            out@ + replace_all(s@.skip(i as int), p@, t@) == replace_all(s@, p@, t@),
        decreases n - i,
    {
        let ghost rest = s@.skip(i as int);
        if n - i < m {
            assert(replace_all(rest, p@, t@) == rest);
            out.append(s.substring_char(i, n));
            assert(s@.subrange(i as int, n as int) =~= rest);
            assert(s@.skip(n as int) =~= Seq::<char>::empty());
            i = n;
        } else if same_text(s.substring_char(i, i + m), p) {
            assert(rest.take(m as int) =~= s@.subrange(i as int, i + m));
            assert(rest.skip(m as int) =~= s@.skip(i + m));
            out.append(t);
            i = i + m;
        } else {
            assert(rest.take(m as int) =~= s@.subrange(i as int, i + m));
            assert(rest.drop_first() =~= s@.skip(i + 1));
            out.append(s.substring_char(i, i + 1));
            assert(s@.subrange(i as int, i + 1) =~= seq![rest[0]]);
            i = i + 1;
        }
    }
    assert(s@.skip(n as int) =~= Seq::<char>::empty());
    out
}

/// Splits `s` into its lines (see `lines_of`).
pub fn lines(s: &str) -> (r: Vec<String>)
    ensures
        views(r@) == lines_of(s@),
{
    let n = s.unicode_len();
    let mut out: Vec<String> = Vec::new();
    let mut start: usize = 0;
    let mut i: usize = 0;
    assert(s@.take(0) =~= Seq::<char>::empty());
    assert(views(out@) =~= Seq::<Seq<char>>::empty());
    assert(views(out@).push(s@.subrange(0, 0)) =~= segments(s@.take(0)));
    while i < n
        invariant
            n == s@.len(),
            start <= i <= n,
            start > 0 ==> s@[start - 1] == '\n',
            i > 0 && s@[i - 1] == '\n' ==> start == i,
            views(out@).push(s@.subrange(start as int, i as int)) == segments(s@.take(i as int)),
        decreases n - i,
    {
        let ghost pre = s@.take(i as int);
        assert(s@.take(i + 1).drop_last() =~= pre);
        if s.get_char(i) == '\n' {
            let ghost before = views(out@);
            out.push(String::from_str(s.substring_char(start, i)));
            assert(views(out@) =~= before.push(s@.subrange(start as int, i as int)));
            assert(views(out@) == segments(pre));
            assert(segments(s@.take(i + 1)) == segments(pre).push(seq![]));
            start = i + 1;
            assert(s@.subrange(start as int, i + 1) =~= Seq::<char>::empty());
            assert(views(out@).push(s@.subrange(start as int, i + 1)) =~= segments(pre).push(
                seq![],
            ));
        } else {
            assert(s@.subrange(start as int, i as int).push(s@[i as int]) =~= s@.subrange(
                start as int,
                i + 1,
            ));
            assert(views(out@) =~= segments(pre).drop_last());
        }
        i = i + 1;
    }
    assert(s@.take(n as int) =~= s@);
    if start < n {
        let ghost before = views(out@);
        out.push(String::from_str(s.substring_char(start, n)));
        assert(views(out@) =~= before.push(s@.subrange(start as int, n as int)));
    } else if n == 0 {
        assert(views(out@) =~= views(out@).push(Seq::<char>::empty()).drop_last());
    } else {
        let ghost whole = views(out@).push(s@.subrange(start as int, n as int));
        assert(whole == segments(s@.drop_last()).push(seq![]));
        assert(views(out@) =~= whole.drop_last());
    }
    out
}

} // verus!

//! Character-level text operations used by the compiler, the parser and the
//! reader of compiled programs: each one is stated as a spec function over
//! `Seq<char>` and implemented on `Vec<char>`.
use vstd::prelude::*;

verus! {

/// `c.is_whitespace()`: the Unicode `White_Space` property.
pub open spec fn is_space(c: char) -> bool {
    ||| ('\u{9}' <= c && c <= '\u{D}')
    ||| c == ' '
    ||| c == '\u{85}'
    ||| c == '\u{A0}'
    ||| c == '\u{1680}'
    ||| ('\u{2000}' <= c && c <= '\u{200A}')
    ||| c == '\u{2028}'
    ||| c == '\u{2029}'
    ||| c == '\u{202F}'
    ||| c == '\u{205F}'
    ||| c == '\u{3000}'
}

pub fn char_is_space(c: char) -> (r: bool)
    ensures
        r == is_space(c),
{
    ('\u{9}' <= c && c <= '\u{D}') || c == ' ' || c == '\u{85}' || c == '\u{A0}' || c == '\u{1680}'
        || ('\u{2000}' <= c && c <= '\u{200A}') || c == '\u{2028}' || c == '\u{2029}' || c
        == '\u{202F}' || c == '\u{205F}' || c == '\u{3000}'
}

/// `str::trim_start`.
pub open spec fn trim_start(s: Seq<char>) -> Seq<char>
    decreases s.len(),
{
    if s.len() > 0 && is_space(s[0]) {
        trim_start(s.drop_first())
    } else {
        s
    }
}

/// `str::trim_end`.
pub open spec fn trim_end(s: Seq<char>) -> Seq<char>
    decreases s.len(),
{
    if s.len() > 0 && is_space(s.last()) {
        trim_end(s.drop_last())
    } else {
        s
    }
}

/// `str::trim`: no leading and no trailing white space.
pub open spec fn trim(s: Seq<char>) -> Seq<char> {
    trim_end(trim_start(s))
}

/// Whether `pat` occurs in `s` at index `i`.
pub open spec fn matches_at(s: Seq<char>, i: int, pat: Seq<char>) -> bool {
    0 <= i && i + pat.len() <= s.len() && s.subrange(i, i + pat.len()) == pat
}

/// `str::replace` for a non-empty pattern: the matches are taken from the
/// left and do not overlap.
pub open spec fn replace(s: Seq<char>, pat: Seq<char>, rep: Seq<char>) -> Seq<char>
    decreases s.len(),
{
    if s.len() == 0 || pat.len() == 0 {
        s
    } else if matches_at(s, 0, pat) {
        rep + replace(s.skip(pat.len() as int), pat, rep)
    } else {
        seq![s[0]] + replace(s.drop_first(), pat, rep)
    }
}

/// The pieces of `s` between the separators `a` and `b` (`str::split`, with
/// both characters as separators; each separator ends one piece).
pub open spec fn split_on(s: Seq<char>, a: char, b: char) -> Seq<Seq<char>>
    decreases s.len(),
{
    if s.len() == 0 {
        seq![Seq::<char>::empty()]
    } else {
        let p = split_on(s.drop_last(), a, b);
        if s.last() == a || s.last() == b {
            p.push(Seq::<char>::empty())
        } else {
            p.update(p.len() - 1, p.last().push(s.last()))
        }
    }
}

/// `str::split` on one character.
pub open spec fn split(s: Seq<char>, c: char) -> Seq<Seq<char>> {
    split_on(s, c, c)
}

/// `str::find`: the first index at or after `from` at which `pat` occurs.
pub open spec fn find_from(s: Seq<char>, pat: Seq<char>, from: int) -> Option<int>
    decreases s.len() + 1 - from,
{
    if from < 0 || from + pat.len() > s.len() {
        None
    } else if matches_at(s, from, pat) {
        Some(from)
    } else {
        find_from(s, pat, from + 1)
    }
}

pub open spec fn find(s: Seq<char>, pat: Seq<char>) -> Option<int> {
    find_from(s, pat, 0)
}

/// Whether `c` occurs in `s`.
pub open spec fn has_char(s: Seq<char>, c: char) -> bool {
    exists|i: int| 0 <= i < s.len() && s[i] == c
}

/// The first index of `c` in `s`.
pub open spec fn first_index(s: Seq<char>, c: char) -> int
    decreases s.len(),
{
    if s.len() == 0 {
        0
    } else if s[0] == c {
        0
    } else {
        1 + first_index(s.drop_first(), c)
    }
}

/// `s` with the first occurrence of `c` taken out (`String::remove` at the
/// index that `str::find` gives).
pub open spec fn remove_first(s: Seq<char>, c: char) -> Seq<char> {
    let i = first_index(s, c);
    s.take(i) + s.skip(i + 1)
}

/// The characters of `s`, in order.
pub fn chars_of(s: &str) -> (res: Vec<char>)
    ensures
        res@ == s@,
{
    let mut res: Vec<char> = Vec::new();
    for c in it: s.chars()
        invariant
            res@ == it.seq().take(it.index() as int),
            it.seq() == s@,
    {
        res.push(c);
    }
    res
}

/// `String::push` of std, which vstd gives no specification: the string
/// afterwards holds its old characters, then `c`.
#[verifier::external_body]
pub(crate) fn push_char(s: &mut String, c: char)
    ensures
        final(s)@ == old(s)@.push(c),
{
    s.push(c);
}

/// The string made of the characters of `v`.
pub fn string_of(v: &Vec<char>) -> (res: String)
    ensures
        res@ == v@,
{
    let mut res = String::new();
    let n = v.len();
    for i in 0..n
        invariant
            n == v.len(),
            res@ == v@.take(i as int),
    {
        push_char(&mut res, v[i]);
        assert(v@.take(i + 1) == v@.take(i as int).push(v@[i as int]));
    }
    assert(v@.take(n as int) == v@);
    res
}

/// The characters of a string literal.
pub fn lit(s: &str) -> (res: Vec<char>)
    ensures
        res@ == s@,
{
    chars_of(s)
}

/// Appends the characters of `src` to `dst`.
pub fn extend(dst: &mut Vec<char>, src: &Vec<char>)
    ensures
        final(dst)@ == old(dst)@ + src@,
{
    let n = src.len();
    for i in 0..n
        invariant
            n == src.len(),
            dst@ == old(dst)@ + src@.take(i as int),
    {
        dst.push(src[i]);
        assert(src@.take(i + 1) == src@.take(i as int).push(src@[i as int]));
    }
    assert(src@.take(n as int) == src@);
}

/// The characters `v[from..to]`.
pub fn slice(v: &Vec<char>, from: usize, to: usize) -> (res: Vec<char>)
    requires
        from <= to <= v.len(),
    ensures
        res@ == v@.subrange(from as int, to as int),
{
    let mut res: Vec<char> = Vec::new();
    let mut i = from;
    while i < to
        invariant
            from <= i <= to <= v.len(),
            res@ == v@.subrange(from as int, i as int),
        decreases to - i,
    {
        res.push(v[i]);
        i += 1;
    }
    res
}

/// Whether `pat` occurs in `s` at index `i`.
pub fn match_at(s: &Vec<char>, i: usize, pat: &Vec<char>) -> (r: bool)
    ensures
        r == matches_at(s@, i as int, pat@),
{
    if i > s.len() || pat.len() > s.len() - i {
        return false;
    }
    let mut k: usize = 0;
    while k < pat.len()
        invariant
            i + pat.len() <= s.len(),
            k <= pat.len(),
            forall|j: int| 0 <= j < k ==> s@[i + j] == pat@[j],
        decreases pat.len() - k,
    {
        if s[i + k] != pat[k] {
            assert(s@.subrange(i as int, i + pat.len())[k as int] != pat@[k as int]);
            return false;
        }
        k += 1;
    }
    assert(s@.subrange(i as int, i + pat.len()) =~= pat@);
    true
}

/// Whether `a` and `b` hold the same characters.
pub fn same(a: &Vec<char>, b: &Vec<char>) -> (r: bool)
    ensures
        r == (a@ == b@),
{
    if a.len() != b.len() {
        return false;
    }
    let r = match_at(a, 0, b);
    assert(a@.subrange(0, a@.len() as int) =~= a@);
    r
}

/// Whether `a` holds the characters of the literal `b`.
pub fn is_lit(a: &Vec<char>, b: &str) -> (r: bool)
    ensures
        r == (a@ == b@),
{
    let bv = lit(b);
    same(a, &bv)
}

proof fn lemma_trim_start_step(s: Seq<char>, i: int)
    requires
        0 <= i < s.len(),
        is_space(s[i]),
    ensures
        trim_start(s.skip(i)) == trim_start(s.skip(i + 1)),
{
    assert(s.skip(i).drop_first() =~= s.skip(i + 1));
}

proof fn lemma_trim_end_step(s: Seq<char>, j: int)
    requires
        0 < j <= s.len(),
        is_space(s[j - 1]),
    ensures
        trim_end(s.take(j)) == trim_end(s.take(j - 1)),
{
    assert(s.take(j).drop_last() =~= s.take(j - 1));
}

/// `str::trim`.
pub fn trim_chars(v: &Vec<char>) -> (res: Vec<char>)
    ensures
        res@ == trim(v@),
{
    let n = v.len();
    let mut i: usize = 0;
    assert(v@.skip(0) =~= v@);
    while i < n && char_is_space(v[i])
        invariant
            i <= n == v.len(),
            trim_start(v@) == trim_start(v@.skip(i as int)),
        decreases n - i,
    {
        proof {
            lemma_trim_start_step(v@, i as int);
        }
        i += 1;
    }
    let ghost t = v@.skip(i as int);
    assert(trim_start(v@) == t);
    let mut j: usize = n;
    assert(t.take(t.len() as int) =~= t);
    while j > i && char_is_space(v[j - 1])
        invariant
            i <= j <= n == v.len(),
            t == v@.skip(i as int),
            trim_end(t) == trim_end(t.take(j - i)),
        decreases j,
    {
        proof {
            lemma_trim_end_step(t, j - i);
        }
        j -= 1;
    }
    assert(t.take(j - i) =~= v@.subrange(i as int, j as int));
    slice(v, i, j)
}

proof fn lemma_replace_step(s: Seq<char>, i: int, pat: Seq<char>, rep: Seq<char>)
    requires
        0 <= i < s.len(),
        pat.len() > 0,
    ensures
        matches_at(s, i, pat) ==> replace(s.skip(i), pat, rep) == rep + replace(
            s.skip(i + pat.len()),
            pat,
            rep,
        ),
        !matches_at(s, i, pat) ==> replace(s.skip(i), pat, rep) == seq![s[i]] + replace(
            s.skip(i + 1),
            pat,
            rep,
        ),
{
    let t = s.skip(i);
    if matches_at(s, i, pat) {
        assert(t.subrange(0, pat.len() as int) =~= s.subrange(i, i + pat.len()));
        assert(t.skip(pat.len() as int) =~= s.skip(i + pat.len()));
    } else {
        if matches_at(t, 0, pat) {
            assert(t.subrange(0, pat.len() as int) =~= s.subrange(i, i + pat.len()));
        }
        assert(t.drop_first() =~= s.skip(i + 1));
    }
}

/// `str::replace` for a non-empty pattern.
pub fn replace_chars(v: &Vec<char>, pat: &Vec<char>, rep: &Vec<char>) -> (res: Vec<char>)
    requires
        pat.len() > 0,
    ensures
        res@ == replace(v@, pat@, rep@),
{
    let mut res: Vec<char> = Vec::new();
    let n = v.len();
    let mut i: usize = 0;
    assert(v@.skip(0) =~= v@);
    while i < n
        invariant
            i <= n == v.len(),
            pat.len() > 0,
            replace(v@, pat@, rep@) == res@ + replace(v@.skip(i as int), pat@, rep@),
        decreases n - i,
    {
        proof {
            lemma_replace_step(v@, i as int, pat@, rep@);
        }
        if match_at(v, i, pat) {
            extend(&mut res, rep);
            i += pat.len();
        } else {
            res.push(v[i]);
            i += 1;
        }
    }
    assert(v@.skip(i as int) =~= Seq::<char>::empty());
    res
}

proof fn lemma_split_on_step(s: Seq<char>, i: int, a: char, b: char)
    requires
        0 <= i < s.len(),
    ensures
        split_on(s.take(i + 1), a, b) == ({
            let p = split_on(s.take(i), a, b);
            if s[i] == a || s[i] == b {
                p.push(Seq::<char>::empty())
            } else {
                p.update(p.len() - 1, p.last().push(s[i]))
            }
        }),
{
    assert(s.take(i + 1).drop_last() =~= s.take(i));
}

pub(crate) proof fn lemma_split_on_nonempty(s: Seq<char>, a: char, b: char)
    ensures
        split_on(s, a, b).len() >= 1,
    decreases s.len(),
{
    if s.len() > 0 {
        lemma_split_on_nonempty(s.drop_last(), a, b);
    }
}

/// `str::split` at every `a` and every `b`.
pub fn split_chars_on(v: &Vec<char>, a: char, b: char) -> (res: Vec<Vec<char>>)
    ensures
        res@.len() == split_on(v@, a, b).len(),
        forall|k: int| 0 <= k < res@.len() ==> #[trigger] res@[k]@ == split_on(v@, a, b)[k],
{
    let mut done: Vec<Vec<char>> = Vec::new();
    let mut cur: Vec<char> = Vec::new();
    let n = v.len();
    assert(v@.take(0) =~= Seq::<char>::empty());
    for i in 0..n
        invariant
            n == v.len(),
            split_on(v@.take(i as int), a, b).len() == done@.len() + 1,
            forall|k: int|
                0 <= k < done@.len() ==> #[trigger] done@[k]@ == split_on(v@.take(i as int), a, b)[k],
            cur@ == split_on(v@.take(i as int), a, b).last(),
    {
        proof {
            lemma_split_on_step(v@, i as int, a, b);
            lemma_split_on_nonempty(v@.take(i as int), a, b);
        }
        let c = v[i];
        if c == a || c == b {
            let piece = cur;
            done.push(piece);
            cur = Vec::new();
        } else {
            cur.push(c);
        }
    }
    assert(v@.take(n as int) =~= v@);
    done.push(cur);
    done
}

/// `str::split` on one character.
pub fn split_chars(v: &Vec<char>, c: char) -> (res: Vec<Vec<char>>)
    ensures
        res@.len() == split(v@, c).len(),
        forall|k: int| 0 <= k < res@.len() ==> #[trigger] res@[k]@ == split(v@, c)[k],
{
    split_chars_on(v, c, c)
}

/// `str::find`.
pub fn find_chars(v: &Vec<char>, pat: &Vec<char>) -> (res: Option<usize>)
    ensures
        match res {
            Some(i) => find(v@, pat@) == Some(i as int) && i + pat.len() <= v.len(),
            None => find(v@, pat@) is None,
        },
{
    if pat.len() > v.len() {
        return None;
    }
    let last = v.len() - pat.len();
    let mut i: usize = 0;
    loop
        invariant
            i <= last == v.len() - pat.len(),
            find(v@, pat@) == find_from(v@, pat@, i as int),
        decreases last - i,
    {
        if match_at(v, i, pat) {
            return Some(i);
        }
        if i == last {
            assert(find_from(v@, pat@, i + 1) is None);
            return None;
        }
        i += 1;
    }
}

proof fn lemma_first_index(s: Seq<char>, c: char)
    ensures
        0 <= first_index(s, c) <= s.len(),
        first_index(s, c) < s.len() <==> has_char(s, c),
        first_index(s, c) < s.len() ==> s[first_index(s, c)] == c,
        forall|j: int| 0 <= j < first_index(s, c) ==> s[j] != c,
    decreases s.len(),
{
    if s.len() > 0 && s[0] != c {
        lemma_first_index(s.drop_first(), c);
        if has_char(s, c) {
            let j = choose|j: int| 0 <= j < s.len() && s[j] == c;
            assert(s.drop_first()[j - 1] == c);
        }
        if has_char(s.drop_first(), c) {
            let j = choose|j: int| 0 <= j < s.len() - 1 && s.drop_first()[j] == c;
            assert(s[j + 1] == c);
        }
        assert forall|j: int| 0 <= j < first_index(s, c) implies s[j] != c by {
            if j > 0 {
                assert(s[j] == s.drop_first()[j - 1]);
            }
        }
    } else if s.len() > 0 {
        assert(s[0] == c);
    }
}

/// The index of the first `c` in `v`, if any.
pub fn char_position(v: &Vec<char>, c: char) -> (res: Option<usize>)
    ensures
        res is Some <==> has_char(v@, c),
        res matches Some(i) ==> i == first_index(v@, c) && i < v.len(),
{
    proof {
        lemma_first_index(v@, c);
    }
    let n = v.len();
    for i in 0..n
        invariant
            n == v.len(),
            forall|j: int| 0 <= j < i ==> v@[j] != c,
            0 <= first_index(v@, c) <= v@.len(),
            first_index(v@, c) < v@.len() <==> has_char(v@, c),
            first_index(v@, c) < v@.len() ==> v@[first_index(v@, c)] == c,
            forall|j: int| 0 <= j < first_index(v@, c) ==> v@[j] != c,
    {
        if v[i] == c {
            return Some(i);
        }
    }
    None
}

/// A trimmed text that is not empty ends in a character that is no space.
pub(crate) proof fn lemma_trim_last(s: Seq<char>)
    ensures
        trim(s).len() > 0 ==> !is_space(trim(s).last()),
{
    lemma_trim_end_last(trim_start(s));
}

proof fn lemma_trim_end_last(s: Seq<char>)
    ensures
        trim_end(s).len() > 0 ==> !is_space(trim_end(s).last()),
    decreases s.len(),
{
    if s.len() > 0 && is_space(s.last()) {
        lemma_trim_end_last(s.drop_last());
    }
}

/// What `replace` gives ends as its input does, or as the replacement does.
pub(crate) proof fn lemma_replace_last(s: Seq<char>, pat: Seq<char>, rep: Seq<char>)
    requires
        rep.len() > 0,
    ensures
        (replace(s, pat, rep).len() > 0) == (s.len() > 0),
        s.len() > 0 ==> replace(s, pat, rep).last() == s.last() || replace(s, pat, rep).last()
            == rep.last(),
    decreases s.len(),
{
    if s.len() == 0 || pat.len() == 0 {
    } else if matches_at(s, 0, pat) {
        lemma_replace_last(s.skip(pat.len() as int), pat, rep);
        if s.skip(pat.len() as int).len() > 0 {
            assert(s.skip(pat.len() as int).last() == s.last());
        }
    } else {
        lemma_replace_last(s.drop_first(), pat, rep);
    }
}

pub(crate) proof fn lemma_space_word()
    ensures
        "SPACE"@ == seq!['S', 'P', 'A', 'C', 'E'],
{
    reveal_strlit("SPACE");
    assert("SPACE"@ =~= seq!['S', 'P', 'A', 'C', 'E']);
}

/// Whether `pat` occurs nowhere in `w`.
pub open spec fn free_of(w: Seq<char>, pat: Seq<char>) -> bool {
    forall|j: int| !#[trigger] matches_at(w, j, pat)
}

/// A word that is the word `SPACE` or holds no `SPACE`.
pub open spec fn plain_word(w: Seq<char>) -> bool {
    w == "SPACE"@ || free_of(w, "SPACE"@)
}

/// The characters a word stands for: the word `SPACE` is a space, any other
/// word is its own characters.
pub open spec fn word_chars(w: Seq<char>) -> Seq<char> {
    if w == "SPACE"@ {
        seq![' ']
    } else {
        w
    }
}

/// The characters of words, one word after the other.
pub open spec fn words_chars(ws: Seq<Seq<char>>) -> Seq<char>
    decreases ws.len(),
{
    if ws.len() == 0 {
        seq![]
    } else {
        words_chars(ws.drop_last()) + word_chars(ws.last())
    }
}

/// The words of a text at its spaces.
pub open spec fn words(x: Seq<char>) -> Seq<Seq<char>> {
    split_on(x, ' ', ' ')
}

pub(crate) proof fn lemma_words_push(x: Seq<char>, d: char)
    ensures
        words(x).len() >= 1,
        words(x.push(d)) == (if d == ' ' {
            words(x).push(Seq::<char>::empty())
        } else {
            words(x).update(words(x).len() - 1, words(x).last().push(d))
        }),
{
    lemma_split_on_nonempty(x, ' ', ' ');
    assert(x.push(d).drop_last() =~= x);
}

proof fn lemma_words_front_space(y: Seq<char>)
    ensures
        words(seq![' '] + y) == seq![Seq::<char>::empty()] + words(y),
    decreases y.len(),
{
    if y.len() == 0 {
        assert(seq![' '] + y =~= Seq::<char>::empty().push(' '));
        lemma_words_push(Seq::<char>::empty(), ' ');
        assert(words(Seq::<char>::empty()) =~= seq![Seq::<char>::empty()]);
        assert(words(seq![' '] + y) =~= seq![Seq::<char>::empty()] + words(y));
    } else {
        let z = y.drop_last();
        let d = y.last();
        lemma_words_front_space(z);
        assert(seq![' '] + y =~= (seq![' '] + z).push(d));
        assert(y =~= z.push(d));
        lemma_words_push(seq![' '] + z, d);
        lemma_words_push(z, d);
        assert(words(seq![' '] + y) =~= seq![Seq::<char>::empty()] + words(y));
    }
}

pub(crate) proof fn lemma_word_chars_plain(w: Seq<char>)
    requires
        free_of(w, "SPACE"@),
    ensures
        word_chars(w) == w,
{
    if w == "SPACE"@ {
        assert(w.subrange(0, w.len() as int) =~= w);
        assert(matches_at(w, 0, "SPACE"@));
    }
}

proof fn lemma_words_chars_front_empty(ws: Seq<Seq<char>>)
    ensures
        words_chars(seq![Seq::<char>::empty()] + ws) == words_chars(ws),
    decreases ws.len(),
{
    lemma_space_word();
    assert("SPACE"@.len() == 5);
    assert(Seq::<char>::empty().len() == 0);
    assert(Seq::<char>::empty() != "SPACE"@);
    if ws.len() == 0 {
        assert(seq![Seq::<char>::empty()] + ws =~= seq![Seq::<char>::empty()]);
        assert(seq![Seq::<char>::empty()].drop_last() =~= Seq::<Seq<char>>::empty());
        assert(word_chars(Seq::<char>::empty()) == Seq::<char>::empty());
        assert(words_chars(Seq::<Seq<char>>::empty()) == Seq::<char>::empty());
        assert(seq![Seq::<char>::empty()].last() == Seq::<char>::empty());
        assert(words_chars(seq![Seq::<char>::empty()]) =~= Seq::<char>::empty());
    } else {
        lemma_words_chars_front_empty(ws.drop_last());
        assert((seq![Seq::<char>::empty()] + ws).drop_last() =~= seq![Seq::<char>::empty()]
            + ws.drop_last());
    }
}

pub(crate) proof fn lemma_words_chars_push_empty(ws: Seq<Seq<char>>)
    ensures
        words_chars(ws.push(Seq::<char>::empty())) == words_chars(ws),
{
    lemma_space_word();
    assert("SPACE"@.len() == 5);
    assert(Seq::<char>::empty().len() == 0);
    assert(Seq::<char>::empty() != "SPACE"@);
    assert(ws.push(Seq::<char>::empty()).drop_last() =~= ws);
    assert(words_chars(ws) + Seq::<char>::empty() =~= words_chars(ws));
}

/// A part of a text without `pat` is without `pat`.
pub(crate) proof fn lemma_free_of_subrange(s: Seq<char>, pat: Seq<char>, k: int, m: int)
    requires
        free_of(s, pat),
        0 <= k <= m <= s.len(),
    ensures
        free_of(s.subrange(k, m), pat),
{
    let t = s.subrange(k, m);
    assert forall|j: int| !#[trigger] matches_at(t, j, pat) by {
        if matches_at(t, j, pat) {
            assert(t.subrange(j, j + pat.len()) =~= s.subrange(k + j, k + j + pat.len()));
            assert(matches_at(s, k + j, pat));
        }
    }
}

/// Whether every white space character of `x` is a space.
pub open spec fn only_spaces(x: Seq<char>) -> bool {
    forall|i: int| 0 <= i < x.len() ==> #[trigger] x[i] == ' ' || !is_space(x[i])
}

proof fn lemma_trim_start_words(x: Seq<char>)
    requires
        only_spaces(x),
    ensures
        only_spaces(trim_start(x)),
        words_chars(words(trim_start(x))) == words_chars(words(x)),
        (forall|i: int| 0 <= i < words(x).len() ==> plain_word(#[trigger] words(x)[i])) ==> (forall|i: int|
            0 <= i < words(trim_start(x)).len() ==> plain_word(#[trigger] words(trim_start(x))[i])),
    decreases x.len(),
{
    if x.len() > 0 && is_space(x[0]) {
        let y = x.drop_first();
        assert(x[0] == ' ');
        assert(x =~= seq![' '] + y);
        assert forall|i: int| 0 <= i < y.len() implies #[trigger] y[i] == ' ' || !is_space(y[i]) by {
            assert(y[i] == x[i + 1]);
        }
        lemma_trim_start_words(y);
        lemma_words_front_space(y);
        lemma_words_chars_front_empty(words(y));
        if forall|i: int| 0 <= i < words(x).len() ==> plain_word(#[trigger] words(x)[i]) {
            assert forall|i: int| 0 <= i < words(y).len() implies plain_word(#[trigger] words(y)[i]) by {
                assert(words(y)[i] == words(x)[i + 1]);
            }
        }
    }
}

proof fn lemma_trim_end_words(x: Seq<char>)
    requires
        only_spaces(x),
    ensures
        only_spaces(trim_end(x)),
        words_chars(words(trim_end(x))) == words_chars(words(x)),
        (forall|i: int| 0 <= i < words(x).len() ==> plain_word(#[trigger] words(x)[i])) ==> (forall|i: int|
            0 <= i < words(trim_end(x)).len() ==> plain_word(#[trigger] words(trim_end(x))[i])),
    decreases x.len(),
{
    if x.len() > 0 && is_space(x.last()) {
        let y = x.drop_last();
        assert(x.last() == ' ');
        assert(x =~= y.push(' '));
        assert forall|i: int| 0 <= i < y.len() implies #[trigger] y[i] == ' ' || !is_space(y[i]) by {
            assert(y[i] == x[i]);
        }
        lemma_trim_end_words(y);
        lemma_words_push(y, ' ');
        lemma_words_chars_push_empty(words(y));
        if forall|i: int| 0 <= i < words(x).len() ==> plain_word(#[trigger] words(x)[i]) {
            assert forall|i: int| 0 <= i < words(y).len() implies plain_word(#[trigger] words(y)[i]) by {
                assert(words(y)[i] == words(x)[i]);
            }
        }
    }
}

/// Trimming spaces from the ends of a text keeps the characters its words
/// stand for, and keeps its words plain.
pub(crate) proof fn lemma_trim_words(x: Seq<char>)
    requires
        only_spaces(x),
    ensures
        only_spaces(trim(x)),
        words_chars(words(trim(x))) == words_chars(words(x)),
        (forall|i: int| 0 <= i < words(x).len() ==> plain_word(#[trigger] words(x)[i])) ==> (forall|i: int|
            0 <= i < words(trim(x)).len() ==> plain_word(#[trigger] words(trim(x))[i])),
{
    lemma_trim_start_words(x);
    lemma_trim_end_words(trim_start(x));
}

/// `replace` of a one-character pattern at the end of a text.
pub(crate) proof fn lemma_replace_push1(s: Seq<char>, c: char, pat: Seq<char>, rep: Seq<char>)
    requires
        pat.len() == 1,
    ensures
        replace(s.push(c), pat, rep) == replace(s, pat, rep) + (if c == pat[0] {
            rep
        } else {
            seq![c]
        }),
    decreases s.len(),
{
    let t = s.push(c);
    if s.len() == 0 {
        assert(t.subrange(0, 1) =~= seq![c]);
        assert(t.skip(1) =~= Seq::<char>::empty());
        assert(t.drop_first() =~= Seq::<char>::empty());
        if c == pat[0] {
            assert(seq![c] =~= pat);
        } else {
            assert(!matches_at(t, 0, pat)) by {
                if matches_at(t, 0, pat) {
                    assert(t.subrange(0, 1)[0] == pat[0]);
                }
            }
        }
        assert(replace(s, pat, rep) =~= Seq::<char>::empty());
    } else {
        lemma_replace_push1(s.drop_first(), c, pat, rep);
        assert(t.subrange(0, 1) =~= s.subrange(0, 1));
        assert(t.skip(1) =~= s.drop_first().push(c));
        assert(s.skip(1) =~= s.drop_first());
        assert(t.drop_first() =~= s.drop_first().push(c));
        if matches_at(s, 0, pat) {
            assert(matches_at(t, 0, pat));
        } else {
            assert(!matches_at(t, 0, pat));
        }
    }
}

/// `replace` changes nothing of a text in which the pattern does not occur.
pub(crate) proof fn lemma_replace_free(w: Seq<char>, pat: Seq<char>, rep: Seq<char>)
    requires
        free_of(w, pat),
    ensures
        replace(w, pat, rep) == w,
    decreases w.len(),
{
    if w.len() > 0 && pat.len() > 0 {
        assert(!matches_at(w, 0, pat));
        assert(w.subrange(1, w.len() as int) =~= w.drop_first());
        lemma_free_of_subrange(w, pat, 1, w.len() as int);
        lemma_replace_free(w.drop_first(), pat, rep);
        assert(seq![w[0]] + w.drop_first() =~= w);
    }
}

/// The characters of words are those of the first word, then those of the
/// rest.
pub(crate) proof fn lemma_words_chars_front(ws: Seq<Seq<char>>)
    requires
        ws.len() > 0,
    ensures
        words_chars(ws) == word_chars(ws[0]) + words_chars(ws.drop_first()),
    decreases ws.len(),
{
    if ws.len() == 1 {
        assert(ws.drop_last() =~= Seq::<Seq<char>>::empty());
        assert(ws.drop_first() =~= Seq::<Seq<char>>::empty());
        assert(word_chars(ws[0]) + Seq::<char>::empty() =~= word_chars(ws[0]));
    } else {
        lemma_words_chars_front(ws.drop_last());
        assert(ws.drop_last().drop_first() =~= ws.drop_first().drop_last());
        assert(ws.drop_first().last() == ws.last());
        assert(word_chars(ws[0]) + words_chars(ws.drop_last().drop_first()) + word_chars(ws.last())
            =~= word_chars(ws[0]) + (words_chars(ws.drop_first().drop_last()) + word_chars(
            ws.drop_first().last(),
        )));
    }
}

} // verus!

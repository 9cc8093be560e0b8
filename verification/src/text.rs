//! Character-level text handling: splitting into lines and words, trimming,
//! prefixes and suffixes, and the ordering of strings.
use vstd::prelude::*;
use vstd::string::*;

verus! {

broadcast use vstd::string::group_string_axioms;

/// The views of a sequence of strings.
pub open spec fn views(v: Seq<String>) -> Seq<Seq<char>> {
    v.map_values(|x: String| x@)
}

/// The pieces of `s` between the occurrences of `sep`, as `str::split` gives
/// them: there is always at least one piece, and `k` separators give `k + 1`
/// pieces, empty ones included.
pub open spec fn split_on(s: Seq<char>, sep: char) -> Seq<Seq<char>>
    decreases s.len(),
{
    if s.len() == 0 {
        seq![Seq::<char>::empty()]
    } else {
        let init = split_on(s.drop_last(), sep);
        if s.last() == sep {
            init.push(Seq::<char>::empty())
        } else {
            init.update(init.len() - 1, init.last().push(s.last()))
        }
    }
}

/// The lines of `s`: its pieces between newline characters.
pub open spec fn lines_of(s: Seq<char>) -> Seq<Seq<char>> {
    split_on(s, '\n')
}

pub proof fn lemma_split_on_len(s: Seq<char>, sep: char)
    ensures
        split_on(s, sep).len() >= 1,
        split_on(s, sep).len() == 1 <==> !s.contains(sep),
    decreases s.len(),
{
    if s.len() > 0 {
        lemma_split_on_len(s.drop_last(), sep);
        if s.drop_last().contains(sep) {
            let j = choose|j: int| 0 <= j < s.drop_last().len() && s.drop_last()[j] == sep;
            assert(s[j] == sep);
        }
        if s.last() == sep {
            assert(s[s.len() - 1] == sep);
        }
        if s.contains(sep) && s.last() != sep {
            let j = choose|j: int| 0 <= j < s.len() && s[j] == sep;
            assert(s.drop_last()[j] == sep);
        }
    }
}

/// Splitting `a + [sep] + b` where `a` holds no separator gives `a` first and
/// then the pieces of `b`.
pub proof fn lemma_split_on_concat(a: Seq<char>, b: Seq<char>, sep: char)
    requires
        !a.contains(sep),
    ensures
        split_on(a + seq![sep] + b, sep) == seq![a] + split_on(b, sep),
    decreases b.len(),
{
    if b.len() == 0 {
        lemma_split_on_no_sep(a, sep);
        assert((a + seq![sep] + b).drop_last() =~= a);
    } else {
        lemma_split_on_concat(a, b.drop_last(), sep);
        assert((a + seq![sep] + b).drop_last() =~= a + seq![sep] + b.drop_last());
        lemma_split_on_len(b.drop_last(), sep);
        let lhs = split_on(a + seq![sep] + b, sep);
        let rhs = seq![a] + split_on(b, sep);
        assert(lhs =~= rhs);
    }
}

/// A sequence with no separator is a single piece.
pub proof fn lemma_split_on_no_sep(a: Seq<char>, sep: char)
    requires
        !a.contains(sep),
    ensures
        split_on(a, sep) == seq![a],
    decreases a.len(),
{
    if a.len() > 0 {
        assert(!a.drop_last().contains(sep)) by {
            if a.drop_last().contains(sep) {
                let j = choose|j: int| 0 <= j < a.drop_last().len() && a.drop_last()[j] == sep;
                assert(a[j] == sep);
            }
        }
        lemma_split_on_no_sep(a.drop_last(), sep);
        assert(a[a.len() - 1] != sep);
        assert(a.drop_last().push(a.last()) =~= a);
        assert(seq![a.drop_last()].update(0, a.drop_last().push(a.last())) =~= seq![a]);
    } else {
        assert(a =~= Seq::<char>::empty());
    }
}

/// The characters of a string, in order.
pub fn chars_of(s: &str) -> (v: Vec<char>)
    ensures
        v@ == s@,
{
    let n = s.unicode_len();
    let mut v: Vec<char> = Vec::new();
    let mut i: usize = 0;
    while i < n
        invariant
            n == s@.len(),
            i <= n,
            v@ == s@.take(i as int),
        decreases n - i,
    {
        v.push(s.get_char(i));
        i += 1;
        assert(v@ =~= s@.take(i as int));
    }
    assert(s@.take(n as int) =~= s@);
    v
}

/// The substring of `s` between two character positions, as an owned string.
pub fn substring(s: &str, from: usize, to: usize) -> (r: String)
    requires
        from <= to <= s@.len(),
    ensures
        r@ == s@.subrange(from as int, to as int),
{
    s.substring_char(from, to).to_owned()
}

/// The lines of `s`, split at each newline as `str::split('\n')` splits.
pub fn split_lines(s: &str) -> (res: Vec<String>)
    ensures
        views(res@) == lines_of(s@),
{
    let cs = chars_of(s);
    let mut res: Vec<String> = Vec::new();
    let mut start: usize = 0;
    let mut i: usize = 0;
    assert(views(res@) + seq![s@.subrange(0, 0)] =~= split_on(s@.take(0), '\n')) by {
        assert(s@.take(0) =~= Seq::<char>::empty());
        assert(s@.subrange(0, 0) =~= Seq::<char>::empty());
    }
    while i < cs.len()
        invariant
            cs@ == s@,
            start <= i <= cs.len(),
            views(res@) + seq![s@.subrange(start as int, i as int)] == split_on(
                s@.take(i as int),
                '\n',
            ),
        decreases cs.len() - i,
    {
        let ghost old_res = res@;
        let ghost old_start = start;
        assert(s@.take(i + 1).drop_last() =~= s@.take(i as int));
        assert(s@.take(i + 1).last() == s@[i as int]);
        let ghost init = split_on(s@.take(i as int), '\n');
        assert(init.len() - 1 == views(old_res).len());
        assert(init.last() == s@.subrange(start as int, i as int));
        if cs[i] == '\n' {
            let piece = substring(s, start, i);
            res.push(piece);
            start = i + 1;
            assert(views(res@) =~= views(old_res) + seq![s@.subrange(old_start as int, i as int)]);
            assert(s@.subrange(start as int, (i + 1) as int) =~= Seq::<char>::empty());
            assert(views(res@) + seq![s@.subrange(start as int, (i + 1) as int)] =~= split_on(
                s@.take(i + 1),
                '\n',
            ));
        } else {
            assert(s@.subrange(start as int, i as int).push(s@[i as int]) =~= s@.subrange(
                start as int,
                (i + 1) as int,
            ));
            assert(views(res@) + seq![s@.subrange(start as int, (i + 1) as int)] =~= split_on(
                s@.take(i + 1),
                '\n',
            ));
        }
        i += 1;
    }
    let last = substring(s, start, i);
    let ghost old_res = res@;
    res.push(last);
    assert(views(res@) =~= views(old_res) + seq![s@.subrange(start as int, i as int)]);
    assert(s@.take(i as int) =~= s@);
    res
}

/// The characters that carry the Unicode `White_Space` property, which are
/// those that `char::is_whitespace` accepts and at which `str::trim` and
/// `str::split_whitespace` cut.
pub open spec fn is_space(c: char) -> bool {
    ||| '\t' <= c <= '\r'
    ||| c == ' '
    ||| c == '\u{85}'
    ||| c == '\u{a0}'
    ||| c == '\u{1680}'
    ||| '\u{2000}' <= c <= '\u{200a}'
    ||| c == '\u{2028}'
    ||| c == '\u{2029}'
    ||| c == '\u{202f}'
    ||| c == '\u{205f}'
    ||| c == '\u{3000}'
}

/// Whether `c` is white space.
pub fn is_whitespace(c: char) -> (r: bool)
    ensures
        r == is_space(c),
{
    ('\t' <= c && c <= '\r') || c == ' ' || c == '\u{85}' || c == '\u{a0}' || c == '\u{1680}'
        || ('\u{2000}' <= c && c <= '\u{200a}') || c == '\u{2028}' || c == '\u{2029}' || c
        == '\u{202f}' || c == '\u{205f}' || c == '\u{3000}'
}

/// The maximal runs of non-space characters of `s`, in order, as
/// `str::split_whitespace` gives them.
pub open spec fn words_of(s: Seq<char>) -> Seq<Seq<char>>
    decreases s.len(),
{
    if s.len() == 0 {
        Seq::<Seq<char>>::empty()
    } else {
        let w = words_of(s.drop_last());
        if is_space(s.last()) {
            w
        } else if s.len() >= 2 && !is_space(s[s.len() - 2]) {
            w.update(w.len() - 1, w.last().push(s.last()))
        } else {
            w.push(seq![s.last()])
        }
    }
}

proof fn lemma_words_nonempty(s: Seq<char>)
    requires
        s.len() > 0,
        !is_space(s.last()),
    ensures
        words_of(s).len() > 0,
    decreases s.len(),
{
    if s.len() >= 2 && !is_space(s[s.len() - 2]) {
        lemma_words_nonempty(s.drop_last());
    }
}

/// A text with no white space in it is one word, kept whole; an empty text
/// has no word.
pub proof fn lemma_words_of_single_word(s: Seq<char>)
    requires
        forall|i: int| 0 <= i < s.len() ==> !is_space(#[trigger] s[i]),
    ensures
        s.len() == 0 ==> words_of(s) == Seq::<Seq<char>>::empty(),
        s.len() > 0 ==> words_of(s) == seq![s],
    decreases s.len(),
{
    if s.len() > 1 {
        assert forall|i: int| 0 <= i < s.drop_last().len() implies !is_space(
            #[trigger] s.drop_last()[i],
        ) by {
            assert(s.drop_last()[i] == s[i]);
        }
        lemma_words_of_single_word(s.drop_last());
        assert(words_of(s.drop_last()) == seq![s.drop_last()]);
        assert(!is_space(s[s.len() - 2]));
        assert(!is_space(s[s.len() - 1]));
        assert(s.drop_last().push(s.last()) =~= s);
        assert(seq![s.drop_last()].update(0, s.drop_last().push(s.last())) =~= seq![s]);
        assert(words_of(s) == seq![s.drop_last()].update(0, s.drop_last().push(s.last())));
    } else if s.len() == 1 {
        assert(!is_space(s[0]));
        assert(s.drop_last() =~= Seq::<char>::empty());
        assert(words_of(s.drop_last()) == Seq::<Seq<char>>::empty());
        assert(seq![s.last()] =~= s);
        assert(words_of(s) == words_of(s.drop_last()).push(seq![s.last()]));
        assert(Seq::<Seq<char>>::empty().push(seq![s.last()]) =~= seq![s]);
    }
}

/// White space separates words: the words of `a`, a white-space character,
/// and `b` are the words of `a` followed by the words of `b`.
pub proof fn lemma_words_split_at_space(a: Seq<char>, c: char, b: Seq<char>)
    requires
        is_space(c),
    ensures
        words_of(a + seq![c] + b) == words_of(a) + words_of(b),
    decreases b.len(),
{
    let s = a + seq![c] + b;
    if b.len() == 0 {
        assert(s.drop_last() =~= a);
        assert(words_of(a) + words_of(b) =~= words_of(a));
    } else {
        let bd = b.drop_last();
        lemma_words_split_at_space(a, c, bd);
        assert(s.drop_last() =~= a + seq![c] + bd);
        assert(s.last() == b.last());
        let w = words_of(a) + words_of(bd);
        if is_space(b.last()) {
        } else if b.len() >= 2 && !is_space(b[b.len() - 2]) {
            assert(s[s.len() - 2] == b[b.len() - 2]);
            lemma_words_nonempty(bd);
            assert(w.update(w.len() - 1, w.last().push(b.last())) =~= words_of(a) + words_of(
                bd,
            ).update(words_of(bd).len() - 1, words_of(bd).last().push(b.last())));
        } else {
            if b.len() >= 2 {
                assert(s[s.len() - 2] == b[b.len() - 2]);
            } else {
                assert(s[s.len() - 2] == c);
                assert(bd =~= Seq::<char>::empty());
            }
            assert(w.push(seq![b.last()]) =~= words_of(a) + words_of(bd).push(seq![b.last()]));
        }
    }
}

/// The words of `s`, split at white space as `str::split_whitespace` splits.
pub fn split_whitespace(s: &str) -> (res: Vec<String>)
    ensures
        views(res@) == words_of(s@),
{
    let cs = chars_of(s);
    let mut res: Vec<String> = Vec::new();
    let mut start: usize = 0;
    let mut in_word = false;
    let mut i: usize = 0;
    assert(s@.take(0) =~= Seq::<char>::empty());
    while i < cs.len()
        invariant
            cs@ == s@,
            start <= i <= cs.len(),
            in_word ==> start < i,
            in_word <==> (i > 0 && !is_space(s@[i - 1])),
            views(res@) + (if in_word {
                seq![s@.subrange(start as int, i as int)]
            } else {
                Seq::<Seq<char>>::empty()
            }) == words_of(s@.take(i as int)),
        decreases cs.len() - i,
    {
        let ghost old_res = res@;
        let ghost old_start = start;
        let ghost prefix = s@.take(i + 1);
        assert(prefix.drop_last() =~= s@.take(i as int));
        assert(prefix.last() == s@[i as int]);
        let c = cs[i];
        if is_whitespace(c) {
            if in_word {
                let w = substring(s, start, i);
                res.push(w);
                in_word = false;
                assert(views(res@) =~= views(old_res) + seq![
                    s@.subrange(old_start as int, i as int),
                ]);
            }
            assert(views(res@) + Seq::<Seq<char>>::empty() =~= words_of(prefix));
        } else {
            if in_word {
                assert(prefix[prefix.len() - 2] == s@[i - 1]);
                assert(s@.subrange(start as int, i as int).push(c) =~= s@.subrange(
                    start as int,
                    (i + 1) as int,
                ));
                assert(views(res@) + seq![s@.subrange(start as int, (i + 1) as int)]
                    =~= words_of(prefix));
            } else {
                start = i;
                in_word = true;
                if i > 0 {
                    assert(prefix[prefix.len() - 2] == s@[i - 1]);
                }
                assert(s@.subrange(start as int, (i + 1) as int) =~= seq![c]);
                assert(views(res@) + seq![s@.subrange(start as int, (i + 1) as int)]
                    =~= words_of(prefix));
            }
        }
        i += 1;
    }
    assert(s@.take(i as int) =~= s@);
    if in_word {
        let ghost old_res = res@;
        let w = substring(s, start, i);
        res.push(w);
        assert(views(res@) =~= views(old_res) + seq![s@.subrange(start as int, i as int)]);
    } else {
        assert(views(res@) + Seq::<Seq<char>>::empty() =~= views(res@));
    }
    res
}

/// `s` without its trailing white space, as `str::trim_end` gives it.
pub open spec fn trim_end_of(s: Seq<char>) -> Seq<char>
    decreases s.len(),
{
    if s.len() > 0 && is_space(s.last()) {
        trim_end_of(s.drop_last())
    } else {
        s
    }
}

/// `s` without its leading white space, as `str::trim_start` gives it.
pub open spec fn trim_start_of(s: Seq<char>) -> Seq<char>
    decreases s.len(),
{
    if s.len() > 0 && is_space(s[0]) {
        trim_start_of(s.drop_first())
    } else {
        s
    }
}

/// `s` without its leading and trailing white space, as `str::trim` gives it.
pub open spec fn trim_of(s: Seq<char>) -> Seq<char> {
    trim_start_of(trim_end_of(s))
}

/// The position after the last character of `s` that is not white space.
fn trimmed_end(cs: &Vec<char>) -> (k: usize)
    ensures
        k <= cs@.len(),
        trim_end_of(cs@) == cs@.take(k as int),
{
    let mut k = cs.len();
    assert(cs@.take(k as int) =~= cs@);
    while k > 0 && is_whitespace(cs[k - 1])
        invariant
            k <= cs@.len(),
            trim_end_of(cs@) == trim_end_of(cs@.take(k as int)),
        decreases k,
    {
        assert(cs@.take(k as int).drop_last() =~= cs@.take(k - 1));
        k -= 1;
    }
    k
}

/// The position of the first character of `cs`, from `from` on, that is not
/// white space.
fn trimmed_start(cs: &Vec<char>, from: usize, to: usize) -> (j: usize)
    requires
        from <= to <= cs@.len(),
    ensures
        from <= j <= to,
        trim_start_of(cs@.subrange(from as int, to as int)) == cs@.subrange(j as int, to as int),
{
    let mut j = from;
    while j < to && is_whitespace(cs[j])
        invariant
            from <= j <= to <= cs@.len(),
            trim_start_of(cs@.subrange(from as int, to as int)) == trim_start_of(
                cs@.subrange(j as int, to as int),
            ),
        decreases to - j,
    {
        assert(cs@.subrange(j as int, to as int).drop_first() =~= cs@.subrange(
            j + 1,
            to as int,
        ));
        j += 1;
    }
    j
}

/// Where `trim_end_of` cuts: what it drops is white space, and what it
/// keeps does not end with white space.
pub proof fn lemma_trim_end_shape(s: Seq<char>) -> (k: int)
    ensures
        0 <= k <= s.len(),
        trim_end_of(s) == s.take(k),
        forall|i: int| k <= i < s.len() ==> is_space(#[trigger] s[i]),
        k > 0 ==> !is_space(s[k - 1]),
    decreases s.len(),
{
    if s.len() > 0 && is_space(s.last()) {
        let k = lemma_trim_end_shape(s.drop_last());
        assert(s.drop_last().take(k) =~= s.take(k));
        assert forall|i: int| k <= i < s.len() implies is_space(#[trigger] s[i]) by {
            if i < s.len() - 1 {
                assert(s.drop_last()[i] == s[i]);
            }
        }
        if k > 0 {
            assert(s.drop_last()[k - 1] == s[k - 1]);
        }
        k
    } else {
        assert(s.take(s.len() as int) =~= s);
        s.len() as int
    }
}

/// Where `trim_start_of` cuts: what it drops is white space, and what it
/// keeps does not start with white space.
pub proof fn lemma_trim_start_shape(s: Seq<char>) -> (k: int)
    ensures
        0 <= k <= s.len(),
        trim_start_of(s) == s.skip(k),
        forall|i: int| 0 <= i < k ==> is_space(#[trigger] s[i]),
        k < s.len() ==> !is_space(s[k]),
    decreases s.len(),
{
    if s.len() > 0 && is_space(s[0]) {
        let k = lemma_trim_start_shape(s.drop_first());
        assert(s.drop_first().skip(k) =~= s.skip(k + 1));
        assert forall|i: int| 0 <= i < k + 1 implies is_space(#[trigger] s[i]) by {
            if i > 0 {
                assert(s.drop_first()[i - 1] == s[i]);
            }
        }
        if k + 1 < s.len() {
            assert(s.drop_first()[k] == s[k + 1]);
        }
        k + 1
    } else {
        assert(s.skip(0) =~= s);
        0
    }
}

/// `s` without its trailing white space.
pub fn trim_end(s: &str) -> (r: String)
    ensures
        r@ == trim_end_of(s@),
{
    let cs = chars_of(s);
    let k = trimmed_end(&cs);
    substring(s, 0, k)
}

/// `s` without its leading and trailing white space.
pub fn trim(s: &str) -> (r: String)
    ensures
        r@ == trim_of(s@),
{
    let cs = chars_of(s);
    let k = trimmed_end(&cs);
    assert(cs@.take(k as int) =~= cs@.subrange(0, k as int));
    let j = trimmed_start(&cs, 0, k);
    substring(s, j, k)
}

/// Whether `b` occurs in `a` at position `at`.
pub open spec fn occurs_at(a: Seq<char>, b: Seq<char>, at: int) -> bool {
    0 <= at && at + b.len() <= a.len() && a.subrange(at, at + b.len()) == b
}

/// Whether `a` begins with `p`.
pub open spec fn has_prefix(a: Seq<char>, p: Seq<char>) -> bool {
    occurs_at(a, p, 0)
}

/// Whether `a` ends with `p`.
pub open spec fn has_suffix(a: Seq<char>, p: Seq<char>) -> bool {
    p.len() <= a.len() && occurs_at(a, p, a.len() - p.len())
}

/// Whether `b` occurs in `a` at position `at`.
pub fn matches_at(a: &Vec<char>, b: &Vec<char>, at: usize) -> (r: bool)
    ensures
        r == occurs_at(a@, b@, at as int),
{
    if b.len() > a.len() || at > a.len() - b.len() {
        return false;
    }
    let mut i: usize = 0;
    while i < b.len()
        invariant
            at + b.len() <= a.len(),
            i <= b.len(),
            forall|j: int| 0 <= j < i ==> a@[at + j] == b@[j],
        decreases b.len() - i,
    {
        if a[at + i] != b[i] {
            assert(a@.subrange(at as int, at + b@.len())[i as int] != b@[i as int]);
            return false;
        }
        i += 1;
    }
    assert(a@.subrange(at as int, at + b@.len()) =~= b@);
    true
}

/// Whether two strings hold the same characters.
pub fn str_eq(a: &str, b: &str) -> (r: bool)
    ensures
        r == (a@ == b@),
{
    let ac = chars_of(a);
    let bc = chars_of(b);
    if ac.len() != bc.len() {
        return false;
    }
    assert(a@ =~= a@.subrange(0, a@.len() as int));
    matches_at(&ac, &bc, 0)
}

/// Whether `s` begins with `p`.
pub fn starts_with(s: &str, p: &str) -> (r: bool)
    ensures
        r == has_prefix(s@, p@),
{
    let sc = chars_of(s);
    let pc = chars_of(p);
    matches_at(&sc, &pc, 0)
}

/// `s` without the suffix `p`, where it ends with `p`, as `str::strip_suffix`
/// gives it.
pub fn strip_suffix(s: &str, p: &str) -> (r: Option<String>)
    ensures
        r is Some <==> has_suffix(s@, p@),
        r matches Some(t) ==> t@ == s@.take(s@.len() - p@.len()),
{
    let sc = chars_of(s);
    let pc = chars_of(p);
    if pc.len() > sc.len() {
        return None;
    }
    let at = sc.len() - pc.len();
    if matches_at(&sc, &pc, at) {
        let t = substring(s, 0, at);
        assert(s@.subrange(0, at as int) =~= s@.take(at as int));
        Some(t)
    } else {
        None
    }
}

/// The ordering of `String` and `str`: lexicographic over the characters
/// (which is the order of their UTF-8 bytes).
pub open spec fn lex_lt(a: Seq<char>, b: Seq<char>) -> bool
    decreases a.len(),
{
    if b.len() == 0 {
        false
    } else if a.len() == 0 {
        true
    } else if a[0] != b[0] {
        a[0] < b[0]
    } else {
        lex_lt(a.drop_first(), b.drop_first())
    }
}

pub proof fn lemma_lex_irreflexive(a: Seq<char>)
    ensures
        !lex_lt(a, a),
    decreases a.len(),
{
    if a.len() > 0 {
        lemma_lex_irreflexive(a.drop_first());
    }
}

pub proof fn lemma_lex_asymmetric(a: Seq<char>, b: Seq<char>)
    ensures
        !(lex_lt(a, b) && lex_lt(b, a)),
    decreases a.len(),
{
    if a.len() > 0 && b.len() > 0 && a[0] == b[0] {
        lemma_lex_asymmetric(a.drop_first(), b.drop_first());
    }
}

pub proof fn lemma_lex_transitive(a: Seq<char>, b: Seq<char>, c: Seq<char>)
    requires
        lex_lt(a, b),
        lex_lt(b, c),
    ensures
        lex_lt(a, c),
    decreases a.len(),
{
    if a.len() > 0 && b.len() > 0 && c.len() > 0 && a[0] == b[0] && b[0] == c[0] {
        lemma_lex_transitive(a.drop_first(), b.drop_first(), c.drop_first());
    }
}

pub proof fn lemma_lex_total(a: Seq<char>, b: Seq<char>)
    requires
        a != b,
    ensures
        lex_lt(a, b) || lex_lt(b, a),
    decreases a.len(),
{
    if a.len() > 0 && b.len() > 0 && a[0] == b[0] {
        if a.drop_first() == b.drop_first() {
            assert(a =~= seq![a[0]] + a.drop_first());
            assert(b =~= seq![b[0]] + b.drop_first());
        }
        lemma_lex_total(a.drop_first(), b.drop_first());
    } else if a.len() == 0 && b.len() == 0 {
        assert(a =~= b);
    }
}

/// Whether `a` comes before `b` in the order of strings.
pub fn str_lt(a: &str, b: &str) -> (r: bool)
    ensures
        r == lex_lt(a@, b@),
{
    let ac = chars_of(a);
    let bc = chars_of(b);
    let mut i: usize = 0;
    assert(a@.skip(0) =~= a@);
    assert(b@.skip(0) =~= b@);
    while i < ac.len() && i < bc.len() && ac[i] == bc[i]
        invariant
            ac@ == a@,
            bc@ == b@,
            i <= ac@.len(),
            i <= bc@.len(),
            lex_lt(a@, b@) == lex_lt(a@.skip(i as int), b@.skip(i as int)),
        decreases ac.len() - i,
    {
        assert(a@.skip(i as int).drop_first() =~= a@.skip(i + 1));
        assert(b@.skip(i as int).drop_first() =~= b@.skip(i + 1));
        i += 1;
    }
    if i == bc.len() {
        false
    } else if i == ac.len() {
        true
    } else {
        ac[i] < bc[i]
    }
}

} // verus!

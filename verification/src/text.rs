//! Text as sequences of characters: trimming, searching, cutting.
use vstd::prelude::*;
use vstd::slice::slice_subrange;

verus! {

/// Appends one character.
///
/// Trusted: `String::push` adds the given character to the end of the string
/// and changes nothing else.
pub assume_specification[ String::push ](s: &mut String, c: char)
    ensures
        final(s)@ == old(s)@.push(c),
;

/// What the `Debug` form of a text is: the text in double quotes, with
/// escapes.
pub uninterp spec fn quoted(s: Seq<char>) -> Seq<char>;

/// The text in double quotes, with escapes, as error messages show it.
///
/// Trusted: formatting a `str` with `{:?}` depends on its characters alone.
/// Nothing is said of which characters are escaped.
#[verifier::external_body]
pub(crate) fn quote(s: &str) -> (res: String)
    ensures
        res@ == quoted(s@),
{
    format!("{:?}", s)
}

/// The texts of a list of strings.
pub open spec fn texts(list: Seq<String>) -> Seq<Seq<char>> {
    list.map_values(|s: String| s@)
}

/// The first place of `x` at or after `from`; the length if there is none.
pub open spec fn first_from<A>(s: Seq<A>, x: A, from: int) -> int
    decreases s.len() - from,
{
    if from >= s.len() {
        s.len() as int
    } else if s[from] == x {
        from
    } else {
        first_from(s, x, from + 1)
    }
}

/// The first place of `x`; the length if there is none.
pub open spec fn first<A>(s: Seq<A>, x: A) -> int {
    first_from(s, x, 0)
}

/// `first_from` is the least place at or after `from` that holds `x`.
pub proof fn lemma_first_from<A>(s: Seq<A>, x: A, from: int)
    requires
        0 <= from <= s.len(),
    ensures
        from <= first_from(s, x, from) <= s.len(),
        first_from(s, x, from) < s.len() ==> s[first_from(s, x, from)] == x,
        forall|i: int| from <= i < first_from(s, x, from) ==> s[i] != x,
    decreases s.len() - from,
{
    if from < s.len() && s[from] != x {
        lemma_first_from(s, x, from + 1);
    }
}

/// The place that holds `x` when no earlier one does is the first.
pub proof fn lemma_first_is<A>(s: Seq<A>, x: A, from: int, at: int)
    requires
        0 <= from <= at <= s.len(),
        at < s.len() ==> s[at] == x,
        forall|i: int| from <= i < at ==> s[i] != x,
    ensures
        first_from(s, x, from) == at,
{
    lemma_first_from(s, x, from);
}

/// One past the last place of `x` before `end`; 0 if there is none.
pub open spec fn after_last<A>(s: Seq<A>, x: A, end: int) -> int
    decreases end,
{
    if end <= 0 {
        0
    } else if s[end - 1] == x {
        end
    } else {
        after_last(s, x, end - 1)
    }
}

/// `after_last` is one past the greatest place before `end` that holds `x`.
pub proof fn lemma_after_last<A>(s: Seq<A>, x: A, end: int)
    requires
        0 <= end <= s.len(),
    ensures
        0 <= after_last(s, x, end) <= end,
        after_last(s, x, end) > 0 ==> s[after_last(s, x, end) - 1] == x,
        forall|i: int| after_last(s, x, end) <= i < end ==> s[i] != x,
    decreases end,
{
    if end > 0 && s[end - 1] != x {
        lemma_after_last(s, x, end - 1);
    }
}

/// Unicode's White_Space property.
pub open spec fn is_space(c: char) -> bool {
    ||| '\u{9}' <= c <= '\u{d}'
    ||| c == ' '
    ||| c == '\u{85}'
    ||| c == '\u{a0}'
    ||| c == '\u{1680}'
    ||| '\u{2000}' <= c <= '\u{200a}'
    ||| c == '\u{2028}'
    ||| c == '\u{2029}'
    ||| c == '\u{202f}'
    ||| c == '\u{205f}'
    ||| c == '\u{3000}'
}

/// Whether `c` has Unicode's White_Space property.
pub fn white_space(c: char) -> (res: bool)
    ensures
        res == is_space(c),
{
    ('\u{9}' <= c && c <= '\u{d}') || c == ' ' || c == '\u{85}' || c == '\u{a0}' || c == '\u{1680}'
        || ('\u{2000}' <= c && c <= '\u{200a}') || c == '\u{2028}' || c == '\u{2029}' || c
        == '\u{202f}' || c == '\u{205f}' || c == '\u{3000}'
}

/// The first place at or after `from` that is no white space.
pub open spec fn skip_space(s: Seq<char>, from: int) -> int
    decreases s.len() - from,
{
    if from < s.len() && is_space(s[from]) {
        skip_space(s, from + 1)
    } else {
        from
    }
}

/// The first place at or after `from` that is white space; the length if
/// there is none.
pub open spec fn skip_word(s: Seq<char>, from: int) -> int
    decreases s.len() - from,
{
    if from < s.len() && !is_space(s[from]) {
        skip_word(s, from + 1)
    } else {
        from
    }
}

/// `s` without the white space at its end.
pub open spec fn trim_end(s: Seq<char>) -> Seq<char>
    decreases s.len(),
{
    if s.len() > 0 && is_space(s.last()) {
        trim_end(s.drop_last())
    } else {
        s
    }
}

/// `s` without the white space at both ends.
pub open spec fn trimmed(s: Seq<char>) -> Seq<char> {
    trim_end(s.skip(skip_space(s, 0)))
}

pub proof fn lemma_skip_space(s: Seq<char>, from: int)
    requires
        0 <= from <= s.len(),
    ensures
        from <= skip_space(s, from) <= s.len(),
        skip_space(s, from) < s.len() ==> !is_space(s[skip_space(s, from)]),
    decreases s.len() - from,
{
    if from < s.len() && is_space(s[from]) {
        lemma_skip_space(s, from + 1);
    }
}

pub proof fn lemma_skip_word(s: Seq<char>, from: int)
    requires
        0 <= from <= s.len(),
    ensures
        from <= skip_word(s, from) <= s.len(),
        from < s.len() && !is_space(s[from]) ==> from < skip_word(s, from),
    decreases s.len() - from,
{
    if from < s.len() && !is_space(s[from]) {
        lemma_skip_word(s, from + 1);
    }
}

/// Text with no white space at either end stays as it is.
pub proof fn lemma_trimmed_fixed(s: Seq<char>)
    requires
        s.len() > 0 ==> !is_space(s[0]) && !is_space(s.last()),
    ensures
        trimmed(s) == s,
{
    assert(s.skip(0) =~= s);
}

/// The characters of `s`, one by one.
pub fn chars_of(s: &str) -> (res: Vec<char>)
    ensures
        res@ == s@,
{
    let mut out: Vec<char> = Vec::new();
    for c in it: s.chars()
        invariant
            it.seq() == s@,
            out@ == s@.take(it.index() as int),
    {
        out.push(c);
        assert(s@.take(it.index() + 1) =~= s@.take(it.index() as int).push(c));
    }
    assert(s@.take(s@.len() as int) =~= s@);
    out
}

/// Appends characters to a string.
pub fn push_chars(out: &mut String, s: &[char])
    ensures
        final(out)@ == old(out)@ + s@,
{
    let ghost start = out@;
    let n: usize = s.len();
    let mut i: usize = 0;
    assert(start + s@.take(0) =~= start);
    while i < n
        invariant
            n == s@.len(),
            i <= n,
            out@ == start + s@.take(i as int),
        decreases n - i,
    {
        out.push(s[i]);
        i += 1;
        assert(start + s@.take(i as int) =~= (start + s@.take(i - 1)).push(s@[i - 1]));
    }
    assert(s@.take(n as int) =~= s@);
}

/// The string that these characters make.
pub fn string_of(s: &[char]) -> (res: String)
    ensures
        res@ == s@,
{
    let mut out = String::new();
    push_chars(&mut out, s);
    assert(Seq::<char>::empty() + s@ =~= s@);
    out
}

/// The part of `s` from `i` up to `j`.
pub fn part(s: &[char], i: usize, j: usize) -> (res: &[char])
    requires
        i <= j <= s@.len(),
    ensures
        res@ == s@.subrange(i as int, j as int),
{
    slice_subrange(s, i, j)
}

/// Whether two character sequences are the same.
pub fn same_chars(a: &[char], b: &[char]) -> (res: bool)
    ensures
        res == (a@ == b@),
{
    let n: usize = a.len();
    if n != b.len() {
        return false;
    }
    let mut i: usize = 0;
    while i < n
        invariant
            n == a@.len(),
            n == b@.len(),
            i <= n,
            forall|j: int| 0 <= j < i ==> a@[j] == b@[j],
        decreases n - i,
    {
        if a[i] != b[i] {
            return false;
        }
        i += 1;
    }
    assert(a@ =~= b@);
    true
}

/// Whether the characters spell out `text`.
pub fn spells(s: &[char], text: &str) -> (res: bool)
    ensures
        res == (s@ == text@),
{
    let t = chars_of(text);
    same_chars(s, t.as_slice())
}

/// Whether two texts are the same.
pub fn same_text(a: &str, b: &str) -> (res: bool)
    ensures
        res == (a@ == b@),
{
    let s = chars_of(a);
    spells(s.as_slice(), b)
}

/// `s` without the white space at both ends.
pub fn trim(s: &[char]) -> (res: &[char])
    ensures
        res@ == trimmed(s@),
{
    let n: usize = s.len();
    let mut i: usize = 0;
    while i < n && white_space(s[i])
        invariant
            n == s@.len(),
            i <= n,
            skip_space(s@, 0) == skip_space(s@, i as int),
        decreases n - i,
    {
        i += 1;
    }
    let mut j: usize = n;
    assert(s@.subrange(i as int, n as int) =~= s@.skip(i as int));
    while i < j && white_space(s[j - 1])
        invariant
            n == s@.len(),
            i <= j <= n,
            trim_end(s@.skip(i as int)) == trim_end(s@.subrange(i as int, j as int)),
        decreases j - i,
    {
        assert(s@.subrange(i as int, j as int).drop_last() =~= s@.subrange(i as int, j - 1));
        j -= 1;
    }
    part(s, i, j)
}

/// The first place of `c` at or after `from`; the length if there is none.
pub fn find_from(s: &[char], c: char, from: usize) -> (res: usize)
    requires
        from <= s@.len(),
    ensures
        res == first_from(s@, c, from as int),
        from <= res <= s@.len(),
        res < s@.len() ==> s@[res as int] == c,
        forall|i: int| from <= i < res ==> s@[i] != c,
{
    let n: usize = s.len();
    let mut i: usize = from;
    while i < n && s[i] != c
        invariant
            n == s@.len(),
            from <= i <= n,
            first_from(s@, c, from as int) == first_from(s@, c, i as int),
            forall|j: int| from <= j < i ==> s@[j] != c,
        decreases n - i,
    {
        i += 1;
    }
    i
}

/// Whether the text holds the character.
pub fn has(s: &[char], c: char) -> (res: bool)
    ensures
        res == s@.contains(c),
{
    let at: usize = find_from(s, c, 0);
    if at < s.len() {
        assert(s@[at as int] == c);
        true
    } else {
        false
    }
}

/// One past the last place of `c`; 0 if there is none.
pub fn find_after_last(s: &[char], c: char) -> (res: usize)
    ensures
        res == after_last(s@, c, s@.len() as int),
        res <= s@.len(),
        res > 0 ==> s@[res - 1] == c,
        forall|i: int| res <= i < s@.len() ==> s@[i] != c,
{
    let n: usize = s.len();
    let mut i: usize = n;
    while i > 0 && s[i - 1] != c
        invariant
            n == s@.len(),
            i <= n,
            after_last(s@, c, n as int) == after_last(s@, c, i as int),
            forall|j: int| i <= j < n ==> s@[j] != c,
        decreases i,
    {
        i -= 1;
    }
    i
}

/// The character with an ASCII capital made small.
pub open spec fn ascii_lower(c: char) -> char {
    if 'A' <= c <= 'Z' {
        (c as u32 + 32) as char
    } else {
        c
    }
}

/// The text with ASCII capitals made small.
pub open spec fn lowered(s: Seq<char>) -> Seq<char> {
    s.map_values(|c: char| ascii_lower(c))
}

/// The character with an ASCII capital made small.
pub fn lower_char(c: char) -> (res: char)
    ensures
        res == ascii_lower(c),
{
    if 'A' <= c && c <= 'Z' {
        ((c as u8) + 32u8) as char
    } else {
        c
    }
}

/// The text with ASCII capitals made small.
pub fn lower(s: &[char]) -> (res: Vec<char>)
    ensures
        res@ == lowered(s@),
{
    let mut out: Vec<char> = Vec::new();
    let n: usize = s.len();
    let mut i: usize = 0;
    while i < n
        invariant
            n == s@.len(),
            i <= n,
            out@.len() == i,
            forall|j: int| 0 <= j < i ==> out@[j] == ascii_lower(s@[j]),
        decreases n - i,
    {
        out.push(lower_char(s[i]));
        i += 1;
    }
    assert(out@ =~= lowered(s@));
    out
}

/// The words of a text from `from` on: what white space separates.
pub open spec fn words(s: Seq<char>, from: int) -> Seq<Seq<char>>
    decreases s.len() - from,
    via words_decreases
{
    let a = skip_space(s, from);
    if from < 0 || a >= s.len() {
        Seq::empty()
    } else {
        let b = skip_word(s, a);
        seq![s.subrange(a, b)] + words(s, b)
    }
}

#[via_fn]
proof fn words_decreases(s: Seq<char>, from: int) {
    if 0 <= from <= s.len() {
        lemma_skip_space(s, from);
        let a = skip_space(s, from);
        if a < s.len() {
            lemma_skip_word(s, a);
        }
    }
}

/// The words of a text.
pub fn split_words(s: &[char]) -> (res: Vec<Vec<char>>)
    ensures
        res@.map_values(|w: Vec<char>| w@) == words(s@, 0),
{
    let n: usize = s.len();
    let mut out: Vec<Vec<char>> = Vec::new();
    let mut at: usize = 0;
    let ghost mut done = Seq::<Seq<char>>::empty();
    assert(out@.map_values(|w: Vec<char>| w@) =~= done);
    assert(done + words(s@, 0) =~= words(s@, 0));
    while at < n
        invariant
            n == s@.len(),
            at <= n,
            done == out@.map_values(|w: Vec<char>| w@),
            done + words(s@, at as int) == words(s@, 0),
        decreases n - at,
    {
        let ghost from = at as int;
        proof {
            lemma_skip_space(s@, from);
        }
        let mut a: usize = at;
        while a < n && white_space(s[a])
            invariant
                n == s@.len(),
                a <= n,
                skip_space(s@, from) == skip_space(s@, a as int),
            decreases n - a,
        {
            a += 1;
        }
        if a >= n {
            assert(words(s@, from) == Seq::<Seq<char>>::empty());
            assert(done + words(s@, from) =~= done);
            return out;
        }
        proof {
            lemma_skip_word(s@, a as int);
        }
        let mut b: usize = a;
        let mut word: Vec<char> = Vec::new();
        while b < n && !white_space(s[b])
            invariant
                n == s@.len(),
                a <= b <= n,
                word@ == s@.subrange(a as int, b as int),
                skip_word(s@, a as int) == skip_word(s@, b as int),
            decreases n - b,
        {
            word.push(s[b]);
            b += 1;
            assert(s@.subrange(a as int, b as int) =~= s@.subrange(a as int, b - 1).push(s@[b - 1]));
        }
        let ghost before = done;
        out.push(word);
        proof {
            done = done.push(s@.subrange(a as int, b as int));
            assert(done =~= out@.map_values(|w: Vec<char>| w@));
            assert(before + words(s@, from) =~= done + words(s@, b as int));
        }
        at = b;
    }
    assert(words(s@, at as int) =~= Seq::<Seq<char>>::empty());
    assert(done + words(s@, at as int) =~= done);
    out
}

/// The text, filled up with blanks to the given number of characters.
pub open spec fn filled(s: Seq<char>, width: nat) -> Seq<char> {
    if s.len() < width {
        s + Seq::new((width - s.len()) as nat, |i: int| ' ')
    } else {
        s
    }
}

/// Appends a text, filled up with blanks to the given number of characters.
pub fn push_filled(out: &mut String, s: &str, width: usize)
    ensures
        final(out)@ == old(out)@ + filled(s@, width as nat),
{
    let chars = chars_of(s);
    push_chars(out, chars.as_slice());
    let ghost start = old(out)@ + s@;
    let n: usize = chars.len();
    let mut i: usize = n;
    assert(out@ =~= start + Seq::new(0, |j: int| ' '));
    while i < width
        invariant
            n <= i,
            i <= width || i == n,
            out@ == start + Seq::new((i - n) as nat, |j: int| ' '),
        decreases width - i,
    {
        out.push(' ');
        i += 1;
        assert(out@ =~= start + Seq::new((i - n) as nat, |j: int| ' '));
    }
    assert(out@ =~= old(out)@ + filled(s@, width as nat));
}

proof fn lemma_trim_end_blanks(s: Seq<char>, after: Seq<char>)
    requires
        s.len() > 0 ==> !is_space(s.last()),
        forall|i: int| 0 <= i < after.len() ==> is_space(#[trigger] after[i]),
    ensures
        trim_end(s + after) == s,
    decreases after.len(),
{
    let all = s + after;
    if after.len() > 0 {
        assert(is_space(after[after.len() - 1]));
        assert(all.last() == after[after.len() - 1]);
        let less = after.drop_last();
        assert forall|i: int| 0 <= i < less.len() implies is_space(#[trigger] less[i]) by {
            assert(less[i] == after[i]);
        }
        lemma_trim_end_blanks(s, less);
        assert(all.drop_last() =~= s + less);
    } else {
        assert(all =~= s);
    }
}

proof fn lemma_skip_blanks(before: Seq<char>, s: Seq<char>, from: int)
    requires
        0 <= from <= before.len(),
        forall|i: int| 0 <= i < before.len() ==> is_space(#[trigger] before[i]),
        s.len() > 0 ==> !is_space(s[0]),
    ensures
        skip_space(before + s, from) == before.len(),
    decreases before.len() - from,
{
    let all = before + s;
    if from < before.len() {
        assert(all[from] == before[from]);
        lemma_skip_blanks(before, s, from + 1);
    } else if s.len() > 0 {
        assert(all[from] == s[0]);
    }
}

/// Blank, tab and the ends of lines are white space; what can be seen of ASCII is
/// not. In all, these are the code points that Unicode calls so.
pub proof fn law_what_is_white_space(c: char)
    ensures
        c == ' ' || c == '\t' || c == '\n' || c == '\r' ==> is_space(c),
        '!' <= c <= '~' ==> !is_space(c),
        is_space(c) <==> {
            let n = c as u32;
            ||| 9 <= n <= 13
            ||| n == 32
            ||| n == 0x85
            ||| n == 0xa0
            ||| n == 0x1680
            ||| 0x2000 <= n <= 0x200a
            ||| 0x2028 <= n <= 0x2029
            ||| n == 0x202f
            ||| n == 0x205f
            ||| n == 0x3000
        },
{
}

/// Trimming takes the white space from both ends, all of it, and nothing else.
pub proof fn law_trimming(before: Seq<char>, s: Seq<char>, after: Seq<char>)
    requires
        forall|i: int| 0 <= i < before.len() ==> is_space(#[trigger] before[i]),
        forall|i: int| 0 <= i < after.len() ==> is_space(#[trigger] after[i]),
        s.len() > 0 ==> !is_space(s[0]) && !is_space(s.last()),
    ensures
        trimmed(before + s + after) == s,
{
    let all = before + s + after;
    if s.len() > 0 {
        assert(all =~= before + (s + after));
        assert((s + after)[0] == s[0]);
        lemma_skip_blanks(before, s + after, 0);
        assert(all.skip(before.len() as int) =~= s + after);
        lemma_trim_end_blanks(s, after);
    } else {
        let none = Seq::<char>::empty();
        let blanks = before + after;
        assert forall|i: int| 0 <= i < blanks.len() implies is_space(#[trigger] blanks[i]) by {
            if i < before.len() {
                assert(blanks[i] == before[i]);
            } else {
                assert(blanks[i] == after[i - before.len()]);
            }
        }
        assert(all =~= blanks + none);
        lemma_skip_blanks(blanks, none, 0);
        assert(all.skip(blanks.len() as int) =~= none);
        assert(s =~= none);
    }
}

/// A capital letter of ASCII becomes the small letter with the same place in the
/// alphabet; every other character stays.
pub proof fn law_small_letters(i: nat, c: char)
    requires
        i < 26,
    ensures
        ascii_lower(('A' as int + i) as char) == ('a' as int + i) as char,
        c < 'A' || 'Z' < c ==> ascii_lower(c) == c,
{
}

proof fn lemma_skip_word_stops(s: Seq<char>, from: int, to: int)
    requires
        0 <= from <= to <= s.len(),
        forall|i: int| from <= i < to ==> !is_space(#[trigger] s[i]),
        to < s.len() ==> is_space(s[to]),
    ensures
        skip_word(s, from) == to,
    decreases to - from,
{
    if from < to {
        assert(!is_space(s[from]));
        lemma_skip_word_stops(s, from + 1, to);
    }
}

/// The words of what follows are the same wherever it begins.
proof fn lemma_words_shift(front: Seq<char>, s: Seq<char>, at: int)
    requires
        0 <= at <= s.len(),
    ensures
        words(front + s, front.len() + at) == words(s, at),
    decreases s.len() - at,
{
    let all = front + s;
    let n = front.len() as int;
    lemma_skip_space_shift(front, s, at);
    lemma_skip_space(s, at);
    let a = skip_space(s, at);
    if a < s.len() {
        lemma_skip_word_shift(front, s, a);
        lemma_skip_word(s, a);
        let b = skip_word(s, a);
        lemma_words_shift(front, s, b);
        assert(all.subrange(n + a, n + b) =~= s.subrange(a, b));
    }
}

proof fn lemma_skip_space_shift(front: Seq<char>, s: Seq<char>, at: int)
    requires
        0 <= at <= s.len(),
    ensures
        skip_space(front + s, front.len() + at) == front.len() + skip_space(s, at),
    decreases s.len() - at,
{
    if at < s.len() {
        assert((front + s)[front.len() + at] == s[at]);
        lemma_skip_space_shift(front, s, at + 1);
    }
}

proof fn lemma_skip_word_shift(front: Seq<char>, s: Seq<char>, at: int)
    requires
        0 <= at <= s.len(),
    ensures
        skip_word(front + s, front.len() + at) == front.len() + skip_word(s, at),
    decreases s.len() - at,
{
    if at < s.len() {
        assert((front + s)[front.len() + at] == s[at]);
        lemma_skip_word_shift(front, s, at + 1);
    }
}

/// White space separates words: a text that begins with a word, followed by white
/// space or by nothing, has that word first and then the words of the rest. White
/// space before a text adds no word.
pub proof fn law_words_are_separated(word: Seq<char>, blank: char, rest: Seq<char>)
    requires
        word.len() > 0,
        forall|i: int| 0 <= i < word.len() ==> !is_space(#[trigger] word[i]),
        is_space(blank),
    ensures
        words(Seq::empty(), 0).len() == 0,
        words(word, 0) == seq![word],
        words(seq![blank] + rest, 0) == words(rest, 0),
        words(word + seq![blank] + rest, 0) == seq![word] + words(rest, 0),
{
    let n = word.len() as int;
    let none = Seq::<char>::empty();
    assert(!is_space(word[0]));
    lemma_skip_word_stops(word, 0, n);
    assert(word.subrange(0, n) =~= word);
    assert(words(word, n) =~= Seq::<Seq<char>>::empty());
    assert(words(word, 0) =~= seq![word]);
    let front = seq![blank];
    let led = front + rest;
    assert(led[0] == blank);
    lemma_words_shift(front, rest, 0);
    assert(skip_space(led, 0) == skip_space(led, 1));
    assert(words(led, 0) =~= words(led, 1));
    let all = word + front + rest;
    assert forall|i: int| 0 <= i < n implies !is_space(#[trigger] all[i]) by {
        assert(all[i] == word[i]);
    }
    assert(all[n] == blank);
    lemma_skip_word_stops(all, 0, n);
    assert(skip_space(all, 0) == 0);
    assert(all.subrange(0, n) =~= word);
    assert(all =~= word + led);
    lemma_words_shift(word, led, 0);
    assert(words(all, 0) == seq![word] + words(all, n));
}

/// A text that is filled up begins as it was, is as long as asked for at least, and
/// goes on with blanks only.
pub proof fn law_filling_adds_blanks(s: Seq<char>, width: nat)
    ensures
        filled(s, width).len() == if s.len() < width {
            width
        } else {
            s.len()
        },
        filled(s, width).take(s.len() as int) == s,
        forall|i: int| s.len() <= i < filled(s, width).len() ==> filled(s, width)[i] == ' ',
{
    assert(filled(s, width).take(s.len() as int) =~= s);
}

} // verus!

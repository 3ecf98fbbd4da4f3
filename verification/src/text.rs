//! Text as sequences of characters: the trimming, splitting and searching that
//! the rest of the library is written with, each with an exact meaning.
use vstd::prelude::*;

verus! {

/// `String::push`: the character goes to the end of the string and nothing
/// else changes.
pub assume_specification[ String::push ](s: &mut String, c: char)
    ensures
        final(s)@ == old(s)@.push(c),
;

/// The name of what `str::to_lowercase` gives for a text.
pub uninterp spec fn lowercase_of(s: Seq<char>) -> Seq<char>;

/// `str::to_lowercase`: the Unicode lowercase mapping of the whole text, which
/// is a function of the text alone.
#[verifier::external_body]
pub(crate) fn lowercase(s: &str) -> (r: String)
    ensures
        r@ == lowercase_of(s@),
{
    s.to_lowercase()
}

/// The characters with the Unicode property `White_Space`.
pub open spec fn is_space(c: char) -> bool {
    ||| 9 <= c as u32 <= 13
    ||| c as u32 == 0x20
    ||| c as u32 == 0x85
    ||| c as u32 == 0xA0
    ||| c as u32 == 0x1680
    ||| 0x2000 <= c as u32 <= 0x200A
    ||| c as u32 == 0x2028
    ||| c as u32 == 0x2029
    ||| c as u32 == 0x202F
    ||| c as u32 == 0x205F
    ||| c as u32 == 0x3000
}

/// Whether a character is white space.
pub fn is_whitespace(c: char) -> (r: bool)
    ensures
        r == is_space(c),
{
    let n: u32 = c as u32;
    (9 <= n && n <= 13) || n == 0x20 || n == 0x85 || n == 0xA0 || n == 0x1680 || (0x2000 <= n
        && n <= 0x200A) || n == 0x2028 || n == 0x2029 || n == 0x202F || n == 0x205F || n == 0x3000
}

/// The characters of a text.
pub fn chars_of(s: &str) -> (r: Vec<char>)
    ensures
        r@ == s@,
{
    let mut v: Vec<char> = Vec::new();
    for c in it: s.chars()
        invariant
            v@ == s@.take(it.index() as int),
            it.seq() == s@,
    {
        v.push(c);
    }
    v
}

/// The text made of the given characters.
pub fn string_of(v: &Vec<char>) -> (r: String)
    ensures
        r@ == v@,
{
    let mut out = String::new();
    let mut i: usize = 0;
    while i < v.len()
        invariant
            i <= v.len(),
            out@ == v@.take(i as int),
        decreases v.len() - i,
    {
        out.push(v[i]);
        i += 1;
    }
    out
}

/// A copy of a text.
pub fn copy_str(s: &str) -> (r: String)
    ensures
        r@ == s@,
{
    s.to_owned()
}

/// Adds the characters of `more` to the end of `out`.
pub fn extend(out: &mut Vec<char>, more: &Vec<char>)
    ensures
        final(out)@ == old(out)@ + more@,
{
    let mut i: usize = 0;
    while i < more.len()
        invariant
            i <= more.len(),
            out@ == old(out)@ + more@.take(i as int),
        decreases more.len() - i,
    {
        out.push(more[i]);
        i += 1;
    }
    assert(more@.take(more@.len() as int) =~= more@);
}

/// Adds the characters of a string slice to the end of `out`.
pub fn extend_str(out: &mut Vec<char>, more: &str)
    ensures
        final(out)@ == old(out)@ + more@,
{
    let v = chars_of(more);
    extend(out, &v);
}

/// The characters from position `from` up to position `to`.
pub fn part(v: &Vec<char>, from: usize, to: usize) -> (r: Vec<char>)
    requires
        from <= to <= v@.len(),
    ensures
        r@ == v@.subrange(from as int, to as int),
{
    let mut out: Vec<char> = Vec::new();
    let mut i: usize = from;
    while i < to
        invariant
            from <= i <= to <= v@.len(),
            out@ == v@.subrange(from as int, i as int),
        decreases to - i,
    {
        out.push(v[i]);
        i += 1;
    }
    out
}

/// Whether two texts hold the same characters.
pub fn same(a: &Vec<char>, b: &Vec<char>) -> (r: bool)
    ensures
        r == (a@ == b@),
{
    if a.len() != b.len() {
        return false;
    }
    let mut i: usize = 0;
    while i < a.len()
        invariant
            i <= a.len(),
            a@.len() == b@.len(),
            forall|j: int| 0 <= j < i ==> a@[j] == b@[j],
        decreases a.len() - i,
    {
        if a[i] != b[i] {
            return false;
        }
        i += 1;
    }
    assert(a@ =~= b@);
    true
}

/// Whether a text is the given string.
pub fn is_str(a: &Vec<char>, b: &str) -> (r: bool)
    ensures
        r == (a@ == b@),
{
    let v = chars_of(b);
    same(a, &v)
}

/// Whether two string slices hold the same characters.
pub fn eq_str(a: &str, b: &str) -> (r: bool)
    ensures
        r == (a@ == b@),
{
    let v = chars_of(a);
    is_str(&v, b)
}

/// `s` begins with `p`.
pub open spec fn begins(s: Seq<char>, p: Seq<char>) -> bool {
    p.len() <= s.len() && s.take(p.len() as int) == p
}

/// Whether `s` begins with `p`.
pub fn starts_with(s: &Vec<char>, p: &Vec<char>) -> (r: bool)
    ensures
        r == begins(s@, p@),
{
    if p.len() > s.len() {
        return false;
    }
    let mut i: usize = 0;
    while i < p.len()
        invariant
            i <= p.len() <= s.len(),
            forall|j: int| 0 <= j < i ==> s@[j] == p@[j],
        decreases p.len() - i,
    {
        if s[i] != p[i] {
            assert(s@.take(p@.len() as int)[i as int] != p@[i as int]);
            return false;
        }
        i += 1;
    }
    assert(s@.take(p@.len() as int) =~= p@);
    true
}

/// Whether `s` begins with the given string.
pub fn starts_with_str(s: &Vec<char>, p: &str) -> (r: bool)
    ensures
        r == begins(s@, p@),
{
    let v = chars_of(p);
    starts_with(s, &v)
}

/// `p` occurs in `s` at position `i`.
pub open spec fn occurs_at(s: Seq<char>, p: Seq<char>, i: int) -> bool {
    0 <= i <= s.len() - p.len() && s.subrange(i, i + p.len()) == p
}

/// `p` occurs somewhere in `s`.
pub open spec fn has(s: Seq<char>, p: Seq<char>) -> bool {
    exists|i: int| occurs_at(s, p, i)
}

/// Whether the given string occurs in `s`.
pub fn contains(s: &Vec<char>, pattern: &str) -> (r: bool)
    ensures
        r == has(s@, pattern@),
{
    let p = chars_of(pattern);
    if p.len() > s.len() {
        assert(forall|i: int| !occurs_at(s@, p@, i));
        return false;
    }
    let n: usize = s.len();
    let last: usize = n - p.len();
    let mut i: usize = 0;
    loop
        invariant
            p@ == pattern@,
            n == s@.len(),
            last == s@.len() - p@.len(),
            i <= last,
            forall|j: int| 0 <= j < i ==> !occurs_at(s@, p@, j),
        decreases last - i,
    {
        let mut k: usize = 0;
        while k < p.len() && s[i + k] == p[k]
            invariant
                k <= p.len(),
                i <= last,
                n == s@.len(),
                last == n - p@.len(),
                forall|j: int| 0 <= j < k ==> s@[i + j] == p@[j],
            decreases p.len() - k,
        {
            k += 1;
        }
        if k == p.len() {
            assert(s@.subrange(i as int, i + p@.len()) =~= p@);
            assert(occurs_at(s@, p@, i as int));
            return true;
        }
        assert(!occurs_at(s@, p@, i as int)) by {
            assert(s@.subrange(i as int, i + p@.len())[k as int] == s@[i + k]);
        }
        if i == last {
            assert(forall|j: int| !occurs_at(s@, p@, j));
            return false;
        }
        i += 1;
    }
}

/// `s` without the white space at its front.
pub open spec fn trim_start(s: Seq<char>) -> Seq<char>
    decreases s.len(),
{
    if s.len() > 0 && is_space(s[0]) {
        trim_start(s.skip(1))
    } else {
        s
    }
}

/// `s` without the white space at its end.
pub open spec fn trim_end(s: Seq<char>) -> Seq<char>
    decreases s.len(),
{
    if s.len() > 0 && is_space(s.last()) {
        trim_end(s.drop_last())
    } else {
        s
    }
}

/// `s` without the white space at both ends.
pub open spec fn trim(s: Seq<char>) -> Seq<char> {
    trim_end(trim_start(s))
}

/// The number of white-space characters at the front of `v`.
pub fn leading_space(v: &Vec<char>) -> (n: usize)
    ensures
        n <= v@.len(),
        v@.skip(n as int) == trim_start(v@),
{
    let mut i: usize = 0;
    assert(v@.skip(0) =~= v@);
    while i < v.len() && is_whitespace(v[i])
        invariant
            i <= v@.len(),
            trim_start(v@.skip(i as int)) == trim_start(v@),
        decreases v.len() - i,
    {
        assert(v@.skip(i as int).skip(1) =~= v@.skip(i + 1));
        i += 1;
    }
    i
}

/// The text without leading white space.
pub fn trimmed_start(v: &Vec<char>) -> (r: Vec<char>)
    ensures
        r@ == trim_start(v@),
{
    let n: usize = leading_space(v);
    part(v, n, v.len())
}

/// The text without trailing white space.
pub fn trimmed_end(v: &Vec<char>) -> (r: Vec<char>)
    ensures
        r@ == trim_end(v@),
{
    let mut n: usize = v.len();
    assert(v@.take(n as int) =~= v@);
    while n > 0 && is_whitespace(v[n - 1])
        invariant
            n <= v@.len(),
            trim_end(v@.take(n as int)) == trim_end(v@),
        decreases n,
    {
        assert(v@.take(n as int).drop_last() =~= v@.take(n - 1));
        n -= 1;
    }
    part(v, 0, n)
}

/// The text without white space at its ends.
pub fn trimmed(v: &Vec<char>) -> (r: Vec<char>)
    ensures
        r@ == trim(v@),
{
    let s = trimmed_start(v);
    trimmed_end(&s)
}

/// The number of characters before the first white space.
pub open spec fn word_len(s: Seq<char>) -> nat
    decreases s.len(),
{
    if s.len() == 0 || is_space(s[0]) {
        0
    } else {
        1 + word_len(s.skip(1))
    }
}

/// The maximal runs of characters that are no white space, in order.
pub open spec fn words(s: Seq<char>) -> Seq<Seq<char>>
    decreases s.len(),
    via words_decreases
{
    let t = trim_start(s);
    if t.len() == 0 {
        Seq::empty()
    } else {
        seq![t.take(word_len(t) as int)] + words(t.skip(word_len(t) as int))
    }
}

#[via_fn]
proof fn words_decreases(s: Seq<char>) {
    lemma_trim_start(s);
    lemma_word_len(trim_start(s));
}

/// What remains after the front is trimmed is a tail of the text that does
/// not begin with white space.
pub proof fn lemma_trim_start(s: Seq<char>)
    ensures
        trim_start(s).len() <= s.len(),
        trim_start(s) == s.skip(s.len() - trim_start(s).len()),
        trim_start(s).len() > 0 ==> !is_space(trim_start(s)[0]),
    decreases s.len(),
{
    if s.len() > 0 && is_space(s[0]) {
        lemma_trim_start(s.skip(1));
        assert(s.skip(1).skip(s.len() - 1 - trim_start(s).len()) =~= s.skip(
            s.len() - trim_start(s).len(),
        ));
    } else {
        assert(s.skip(0) =~= s);
    }
}

/// What remains after the end is trimmed is a front of the text that does not
/// end in white space.
pub proof fn lemma_trim_end(s: Seq<char>)
    ensures
        trim_end(s).len() <= s.len(),
        trim_end(s) == s.take(trim_end(s).len() as int),
        trim_end(s).len() > 0 ==> !is_space(trim_end(s).last()),
    decreases s.len(),
{
    if s.len() > 0 && is_space(s.last()) {
        lemma_trim_end(s.drop_last());
        assert(s.drop_last().take(trim_end(s).len() as int) =~= s.take(trim_end(s).len() as int));
    } else {
        assert(s.take(s.len() as int) =~= s);
    }
}

/// A word ends at the first white space or at the end of the text.
pub proof fn lemma_word_len(s: Seq<char>)
    ensures
        word_len(s) <= s.len(),
        s.len() > 0 && !is_space(s[0]) ==> word_len(s) > 0,
        forall|i: int| 0 <= i < word_len(s) ==> !is_space(#[trigger] s[i]),
        word_len(s) < s.len() ==> is_space(s[word_len(s) as int]),
    decreases s.len(),
{
    if s.len() > 0 && !is_space(s[0]) {
        lemma_word_len(s.skip(1));
        assert forall|i: int| 0 <= i < word_len(s) implies !is_space(#[trigger] s[i]) by {
            if i > 0 {
                assert(s.skip(1)[i - 1] == s[i]);
            }
        }
    }
}

/// The text of an optional string.
pub open spec fn option_view(o: Option<String>) -> Option<Seq<char>> {
    match o {
        Some(s) => Some(s@),
        None => None,
    }
}

/// The texts of a list of texts.
pub open spec fn views(v: Seq<Vec<char>>) -> Seq<Seq<char>> {
    v.map_values(|x: Vec<char>| x@)
}

/// The texts of a list of strings.
pub open spec fn string_views(v: Seq<String>) -> Seq<Seq<char>> {
    v.map_values(|x: String| x@)
}

/// The position of the first character at or after `from` that is white space.
pub fn word_end(v: &Vec<char>, from: usize) -> (to: usize)
    requires
        from <= v@.len(),
    ensures
        from <= to <= v@.len(),
        to == from + word_len(v@.skip(from as int)),
{
    let mut i: usize = from;
    while i < v.len() && !is_whitespace(v[i])
        invariant
            from <= i <= v@.len(),
            i - from + word_len(v@.skip(i as int)) == word_len(v@.skip(from as int)),
        decreases v.len() - i,
    {
        assert(v@.skip(i as int).skip(1) =~= v@.skip(i + 1));
        i += 1;
    }
    i
}

/// The words of a text.
pub fn words_of(v: &Vec<char>) -> (r: Vec<Vec<char>>)
    ensures
        views(r@) == words(v@),
{
    let mut out: Vec<Vec<char>> = Vec::new();
    let mut i: usize = 0;
    assert(v@.skip(0) =~= v@);
    assert(views(out@) =~= Seq::<Seq<char>>::empty());
    loop
        invariant
            i <= v@.len(),
            words(v@) == views(out@) + words(v@.skip(i as int)),
        decreases v@.len() - i,
    {
        let ghost rest = v@.skip(i as int);
        let tail = part(v, i, v.len());
        assert(tail@ =~= rest);
        let start: usize = i + leading_space(&tail);
        assert(v@.skip(start as int) =~= trim_start(rest));
        if start == v.len() {
            assert(words(rest) =~= Seq::<Seq<char>>::empty());
            assert(views(out@) + words(rest) =~= views(out@));
            return out;
        }
        proof {
            lemma_trim_start(rest);
            lemma_word_len(trim_start(rest));
        }
        let end: usize = word_end(v, start);
        let word = part(v, start, end);
        proof {
            let t = trim_start(rest);
            assert(word@ =~= t.take(word_len(t) as int));
            assert(t.skip(word_len(t) as int) =~= v@.skip(end as int));
            assert(views(out@.push(word)) =~= views(out@).push(word@));
            assert(words(rest) == seq![word@] + words(v@.skip(end as int)));
            assert(views(out@).push(word@) + words(v@.skip(end as int)) =~= views(out@) + (
            seq![word@] + words(v@.skip(end as int))));
        }
        out.push(word);
        i = end;
    }
}

/// The position of the first `c` in `s`, or the length of `s` where there is none.
pub open spec fn first_at(s: Seq<char>, c: char) -> int
    decreases s.len(),
{
    if s.len() == 0 || s[0] == c {
        0
    } else {
        1 + first_at(s.skip(1), c)
    }
}

/// The position of the last `c` in `s`, or -1 where there is none.
pub open spec fn last_at(s: Seq<char>, c: char) -> int
    decreases s.len(),
{
    if s.len() == 0 {
        -1
    } else if s.last() == c {
        s.len() - 1
    } else {
        last_at(s.drop_last(), c)
    }
}

/// `first_at` is the least position that holds `c`.
pub proof fn lemma_first_at(s: Seq<char>, c: char)
    ensures
        0 <= first_at(s, c) <= s.len(),
        first_at(s, c) < s.len() ==> s[first_at(s, c)] == c,
        forall|i: int| 0 <= i < first_at(s, c) ==> #[trigger] s[i] != c,
    decreases s.len(),
{
    if s.len() > 0 && s[0] != c {
        lemma_first_at(s.skip(1), c);
        assert forall|i: int| 0 <= i < first_at(s, c) implies #[trigger] s[i] != c by {
            if i > 0 {
                assert(s.skip(1)[i - 1] == s[i]);
            }
        }
    }
}

/// `last_at` is the greatest position that holds `c`.
pub proof fn lemma_last_at(s: Seq<char>, c: char)
    ensures
        -1 <= last_at(s, c) < s.len(),
        last_at(s, c) >= 0 ==> s[last_at(s, c)] == c,
        forall|i: int| last_at(s, c) < i < s.len() ==> #[trigger] s[i] != c,
    decreases s.len(),
{
    if s.len() > 0 && s.last() != c {
        lemma_last_at(s.drop_last(), c);
        assert forall|i: int| last_at(s, c) < i < s.len() implies #[trigger] s[i] != c by {
            if i < s.len() - 1 {
                assert(s.drop_last()[i] == s[i]);
            }
        }
    }
}

/// Finds the first `c` at or after `from`; the length of the text if there is none.
pub fn find_from(v: &Vec<char>, c: char, from: usize) -> (n: usize)
    requires
        from <= v@.len(),
    ensures
        from <= n <= v@.len(),
        n - from == first_at(v@.skip(from as int), c),
{
    let mut i: usize = from;
    while i < v.len() && v[i] != c
        invariant
            from <= i <= v@.len(),
            i - from + first_at(v@.skip(i as int), c) == first_at(v@.skip(from as int), c),
        decreases v.len() - i,
    {
        assert(v@.skip(i as int).skip(1) =~= v@.skip(i + 1));
        i += 1;
    }
    i
}

/// Finds the first `c`; the length of the text if there is none.
pub fn find(v: &Vec<char>, c: char) -> (n: usize)
    ensures
        n <= v@.len(),
        n == first_at(v@, c),
{
    assert(v@.skip(0) =~= v@);
    find_from(v, c, 0)
}

/// Finds the last `c`.
pub fn rfind(v: &Vec<char>, c: char) -> (r: Option<usize>)
    ensures
        match r {
            Some(n) => n == last_at(v@, c) && n < v@.len(),
            None => last_at(v@, c) == -1,
        },
{
    let mut n: usize = v.len();
    assert(v@.take(n as int) =~= v@);
    while n > 0
        invariant
            n <= v@.len(),
            last_at(v@.take(n as int), c) == last_at(v@, c),
        decreases n,
    {
        if v[n - 1] == c {
            return Some(n - 1);
        }
        assert(v@.take(n as int).drop_last() =~= v@.take(n - 1));
        n -= 1;
    }
    None
}

/// The pieces of `s` between the occurrences of `d`: one more than there are
/// occurrences.
pub open spec fn split_on(s: Seq<char>, d: char) -> Seq<Seq<char>>
    decreases s.len(),
    via split_on_decreases
{
    let n = first_at(s, d);
    if n >= s.len() {
        seq![s]
    } else {
        seq![s.take(n)] + split_on(s.skip(n + 1), d)
    }
}

#[via_fn]
proof fn split_on_decreases(s: Seq<char>, d: char) {
    lemma_first_at(s, d);
}

/// Splits a text at each `d`.
pub fn split(v: &Vec<char>, d: char) -> (r: Vec<Vec<char>>)
    ensures
        views(r@) == split_on(v@, d),
        r@.len() >= 1,
{
    let mut out: Vec<Vec<char>> = Vec::new();
    let mut i: usize = 0;
    assert(v@.skip(0) =~= v@);
    assert(views(out@) =~= Seq::<Seq<char>>::empty());
    loop
        invariant
            i <= v@.len(),
            split_on(v@, d) == views(out@) + split_on(v@.skip(i as int), d),
        decreases v@.len() - i,
    {
        let n: usize = find_from(v, d, i);
        let piece = part(v, i, n);
        let ghost rest = v@.skip(i as int);
        proof {
            lemma_first_at(rest, d);
            assert(piece@ =~= rest.take(n - i));
            assert(views(out@.push(piece)) =~= views(out@).push(piece@));
        }
        if n == v.len() {
            assert(rest.take(n - i) =~= rest);
            assert(views(out@).push(piece@) =~= views(out@) + seq![rest]);
            out.push(piece);
            return out;
        }
        proof {
            assert(rest.skip(n - i + 1) =~= v@.skip(n + 1));
            assert(views(out@).push(piece@) + split_on(v@.skip(n + 1), d) =~= views(out@) + (
            seq![piece@] + split_on(v@.skip(n + 1), d)));
        }
        out.push(piece);
        i = n + 1;
    }
}

/// The texts one after another with `sep` between them.
pub open spec fn join(parts: Seq<Seq<char>>, sep: Seq<char>) -> Seq<char>
    decreases parts.len(),
{
    if parts.len() == 0 {
        Seq::empty()
    } else if parts.len() == 1 {
        parts[0]
    } else {
        parts[0] + sep + join(parts.skip(1), sep)
    }
}

/// One more text at the end of a list that is not empty adds the separator
/// and the text.
pub proof fn lemma_join_push(parts: Seq<Seq<char>>, sep: Seq<char>, last: Seq<char>)
    requires
        parts.len() > 0,
    ensures
        join(parts.push(last), sep) == join(parts, sep) + sep + last,
    decreases parts.len(),
{
    let all = parts.push(last);
    if parts.len() == 1 {
        assert(all.skip(1) =~= seq![last]);
        assert(join(all.skip(1), sep) == last);
    } else {
        lemma_join_push(parts.skip(1), sep, last);
        assert(all.skip(1) =~= parts.skip(1).push(last));
        let middle = join(parts.skip(1), sep);
        assert(join(parts, sep) == parts[0] + sep + middle);
        assert(join(all, sep) == all[0] + sep + (middle + sep + last));
        assert(all[0] == parts[0]);
        assert(parts[0] + sep + (middle + sep + last) =~= parts[0] + sep + middle + sep + last);
    }
}

/// Joins texts with a separator between them.
pub fn joined(parts: &Vec<Vec<char>>, sep: &str) -> (r: Vec<char>)
    ensures
        r@ == join(views(parts@), sep@),
{
    let mut out: Vec<char> = Vec::new();
    let mut i: usize = 0;
    let s = chars_of(sep);
    while i < parts.len()
        invariant
            i <= parts@.len(),
            s@ == sep@,
            out@ == join(views(parts@.take(i as int)), sep@),
        decreases parts.len() - i,
    {
        proof {
            let front = views(parts@.take(i as int));
            let next = views(parts@.take(i + 1));
            assert(next =~= front.push(parts@[i as int]@));
            if i > 0 {
                lemma_join_push(front, sep@, parts@[i as int]@);
            } else {
                assert(next =~= seq![parts@[0]@]);
            }
        }
        if i > 0 {
            extend(&mut out, &s);
        }
        extend(&mut out, &parts[i]);
        assert(out@ =~= join(views(parts@.take(i + 1)), sep@));
        i += 1;
    }
    assert(parts@.take(i as int) =~= parts@);
    out
}

/// Splitting at `d` undoes joining with `d`, for texts that do not hold `d`.
pub proof fn lemma_split_join(parts: Seq<Seq<char>>, d: char)
    requires
        parts.len() > 0,
        forall|i: int| 0 <= i < parts.len() ==> !(#[trigger] parts[i]).contains(d),
    ensures
        split_on(join(parts, seq![d]), d) == parts,
    decreases parts.len(),
{
    let s = join(parts, seq![d]);
    lemma_first_at(s, d);
    if parts.len() == 1 {
        if first_at(s, d) < s.len() {
            assert(parts[0].contains(d));
        }
        assert(split_on(s, d) =~= parts);
    } else {
        let head = parts[0];
        let rest = parts.skip(1);
        let n = first_at(s, d);
        assert(s =~= head + seq![d] + join(rest, seq![d]));
        assert(s[head.len() as int] == d);
        if n < head.len() {
            assert(head[n] == d);
            assert(head.contains(d));
        }
        assert(n == head.len());
        assert(s.take(n) =~= head);
        assert(s.skip(n + 1) =~= join(rest, seq![d]));
        assert forall|i: int| 0 <= i < rest.len() implies !(#[trigger] rest[i]).contains(d) by {
            assert(rest[i] == parts[i + 1]);
        }
        lemma_split_join(rest, d);
        assert(split_on(s, d) =~= seq![head] + rest);
        assert(seq![head] + rest =~= parts);
    }
}

/// `s` without one carriage return at its end.
pub open spec fn chomp(s: Seq<char>) -> Seq<char> {
    if s.len() > 0 && s.last() == '\r' {
        s.drop_last()
    } else {
        s
    }
}

/// The lines of a text. A line ends in a line feed, or a carriage return and a
/// line feed, neither of which is part of it; the last line may lack its end.
pub open spec fn lines(s: Seq<char>) -> Seq<Seq<char>>
    decreases s.len(),
    via lines_decreases
{
    let n = first_at(s, '\n');
    if s.len() == 0 {
        Seq::empty()
    } else if n >= s.len() {
        seq![s]
    } else {
        seq![chomp(s.take(n))] + lines(s.skip(n + 1))
    }
}

#[via_fn]
proof fn lines_decreases(s: Seq<char>) {
    lemma_first_at(s, '\n');
}

/// The lines of a text.
pub fn lines_of(v: &Vec<char>) -> (r: Vec<Vec<char>>)
    ensures
        views(r@) == lines(v@),
{
    let mut out: Vec<Vec<char>> = Vec::new();
    let mut i: usize = 0;
    assert(v@.skip(0) =~= v@);
    assert(views(out@) =~= Seq::<Seq<char>>::empty());
    while i < v.len()
        invariant
            i <= v@.len(),
            lines(v@) == views(out@) + lines(v@.skip(i as int)),
        decreases v@.len() - i,
    {
        let n: usize = find_from(v, '\n', i);
        let ghost rest = v@.skip(i as int);
        proof {
            lemma_first_at(rest, '\n');
        }
        if n == v.len() {
            let piece = part(v, i, n);
            proof {
                assert(piece@ =~= rest);
                assert(views(out@.push(piece)) =~= views(out@) + seq![rest]);
                assert(v@.skip(n as int) =~= Seq::<char>::empty());
                assert(views(out@.push(piece)) + lines(v@.skip(n as int)) =~= views(
                    out@.push(piece),
                ));
            }
            out.push(piece);
            i = n;
        } else {
            let end: usize = if n > i && v[n - 1] == '\r' {
                n - 1
            } else {
                n
            };
            let piece = part(v, i, end);
            proof {
                assert(rest.take(n - i) =~= v@.subrange(i as int, n as int));
                assert(piece@ =~= chomp(rest.take(n - i)));
                assert(views(out@.push(piece)) =~= views(out@).push(piece@));
                assert(rest.skip(n - i + 1) =~= v@.skip(n + 1));
                assert(views(out@).push(piece@) + lines(v@.skip(n + 1)) =~= views(out@) + (
                seq![piece@] + lines(v@.skip(n + 1))));
            }
            out.push(piece);
            i = n + 1;
        }
    }
    assert(v@.skip(i as int) =~= Seq::<char>::empty());
    assert(views(out@) + Seq::<Seq<char>>::empty() =~= views(out@));
    out
}

// ------------------------------------------------------- words and lines

/// `s` is a word: it is not empty and holds no white space.
pub open spec fn is_word(s: Seq<char>) -> bool {
    s.len() > 0 && forall|i: int| 0 <= i < s.len() ==> !is_space(#[trigger] s[i])
}

/// The length of the first word is known by where it ends.
pub proof fn lemma_word_len_is(s: Seq<char>, n: int)
    requires
        0 <= n <= s.len(),
        forall|i: int| 0 <= i < n ==> !is_space(#[trigger] s[i]),
        n < s.len() ==> is_space(s[n]),
    ensures
        word_len(s) == n,
{
    lemma_word_len(s);
    let m = word_len(s) as int;
    if m < n {
        assert(is_space(s[m]));
    } else if n < m {
        assert(!is_space(s[n]));
    }
}

/// Each of the words of a text is a word, and occurs in the text.
pub proof fn lemma_words(s: Seq<char>, i: int)
    requires
        0 <= i < words(s).len(),
    ensures
        is_word(words(s)[i]),
        has(s, words(s)[i]),
    decreases s.len(),
{
    let t = trim_start(s);
    let n = word_len(t) as int;
    lemma_trim_start(s);
    lemma_word_len(t);
    let from = s.len() - t.len();
    assert(words(s) == seq![t.take(n)] + words(t.skip(n)));
    if i == 0 {
        let w = t.take(n);
        assert(words(s)[0] == w);
        assert forall|k: int| 0 <= k < w.len() implies !is_space(#[trigger] w[k]) by {
            assert(w[k] == t[k]);
        }
        assert(s.subrange(from, from + w.len()) =~= w);
        assert(occurs_at(s, w, from));
    } else {
        let rest = t.skip(n);
        lemma_words(rest, i - 1);
        let w = words(s)[i];
        assert(w == words(rest)[i - 1]);
        assert(rest =~= s.subrange(from + n, s.len() as int));
        lemma_has_part(s, from + n, s.len() as int, w);
    }
}

/// Two of the words of a text occur in it one behind the other.
pub proof fn lemma_words_apart(s: Seq<char>, i: int, j: int)
    requires
        0 <= i < j < words(s).len(),
    ensures
        exists|a: int, b: int|
            #[trigger] occurs_at(s, words(s)[i], a) && #[trigger] occurs_at(s, words(s)[j], b) && a
                + words(s)[i].len() <= b,
    decreases s.len(),
{
    let t = trim_start(s);
    let n = word_len(t) as int;
    lemma_trim_start(s);
    lemma_word_len(t);
    let from = s.len() - t.len();
    let rest = t.skip(n);
    assert(words(s) == seq![t.take(n)] + words(rest));
    let v = words(s)[i];
    let w = words(s)[j];
    assert(w == words(rest)[j - 1]);
    if i == 0 {
        assert(s.subrange(from, from + v.len()) =~= v);
        assert(occurs_at(s, v, from));
        lemma_words(rest, j - 1);
        let k = choose|k: int| occurs_at(rest, w, k);
        assert(s.subrange(from + n + k, from + n + k + w.len()) =~= rest.subrange(k, k + w.len()));
        assert(occurs_at(s, w, from + n + k));
    } else {
        assert(v == words(rest)[i - 1]);
        lemma_words_apart(rest, i - 1, j - 1);
        let (a, b) = choose|a: int, b: int|
            #[trigger] occurs_at(rest, v, a) && #[trigger] occurs_at(rest, w, b) && a + v.len()
                <= b;
        assert(s.subrange(from + n + a, from + n + a + v.len()) =~= rest.subrange(a, a + v.len()));
        assert(s.subrange(from + n + b, from + n + b + w.len()) =~= rest.subrange(b, b + w.len()));
        assert(occurs_at(s, v, from + n + a));
        assert(occurs_at(s, w, from + n + b));
    }
}

/// What holds no blank and occurs in texts with blanks between them occurs in
/// one of them.
pub proof fn lemma_has_joined(ws: Seq<Seq<char>>, p: Seq<char>)
    requires
        has(join(ws, seq![' ']), p),
        p.len() > 0,
        !p.contains(' '),
    ensures
        exists|i: int| 0 <= i < ws.len() && has(#[trigger] ws[i], p),
    decreases ws.len(),
{
    let s = join(ws, seq![' ']);
    let k = choose|k: int| occurs_at(s, p, k);
    if ws.len() == 1 {
        assert(has(ws[0], p));
    } else if ws.len() > 1 {
        let w = ws[0];
        let rest = ws.skip(1);
        let tail = join(rest, seq![' ']);
        let n = w.len() as int;
        assert(s == w + seq![' '] + tail);
        if k + p.len() <= n {
            assert(w.subrange(k, k + p.len()) =~= s.subrange(k, k + p.len()));
            assert(occurs_at(w, p, k));
        } else if k <= n {
            assert(s.subrange(k, k + p.len())[n - k] == s[n]);
            assert(p[n - k] == ' ');
        } else {
            assert(tail.subrange(k - n - 1, k - n - 1 + p.len()) =~= s.subrange(k, k + p.len()));
            assert(occurs_at(tail, p, k - n - 1));
            lemma_has_joined(rest, p);
            let i = choose|i: int| 0 <= i < rest.len() && has(#[trigger] rest[i], p);
            assert(rest[i] == ws[i + 1]);
        }
    }
}

/// The lines of a text hold no character that the text does not hold.
pub proof fn lemma_lines_hold(s: Seq<char>, c: char)
    requires
        !s.contains(c),
    ensures
        forall|i: int| 0 <= i < lines(s).len() ==> !(#[trigger] lines(s)[i]).contains(c),
    decreases s.len(),
{
    let n = first_at(s, '\n');
    lemma_first_at(s, '\n');
    if s.len() > 0 && n < s.len() {
        let rest = s.skip(n + 1);
        assert forall|k: int| 0 <= k < rest.len() implies rest[k] != c by {
            assert(s.contains(s[k + n + 1]));
        }
        lemma_lines_hold(rest, c);
        let line = chomp(s.take(n));
        assert(lines(s) == seq![line] + lines(rest));
        assert forall|i: int| 0 <= i < lines(s).len() implies !(#[trigger] lines(s)[i]).contains(
            c,
        ) by {
            if i == 0 {
                assert forall|k: int| 0 <= k < line.len() implies line[k] != c by {
                    assert(s.contains(s[k]));
                }
            } else {
                assert(lines(s)[i] == lines(rest)[i - 1]);
            }
        }
    } else if s.len() > 0 {
        assert(lines(s) == seq![s]);
    }
}

/// What occurs in a part of a text occurs in the text.
pub proof fn lemma_has_part(s: Seq<char>, from: int, to: int, p: Seq<char>)
    requires
        0 <= from <= to <= s.len(),
        has(s.subrange(from, to), p),
    ensures
        has(s, p),
{
    let part = s.subrange(from, to);
    let k = choose|k: int| occurs_at(part, p, k);
    assert(s.subrange(from + k, from + k + p.len()) =~= part.subrange(k, k + p.len()));
    assert(occurs_at(s, p, from + k));
}

/// A text occurs in itself.
pub proof fn lemma_has_itself(s: Seq<char>)
    ensures
        has(s, s),
{
    assert(s.subrange(0, s.len() as int) =~= s);
    assert(occurs_at(s, s, 0));
}

/// The trimmed text is a part of the text.
pub proof fn lemma_trim_is_part(s: Seq<char>)
    ensures
        exists|from: int, to: int|
            0 <= from <= to <= s.len() && #[trigger] s.subrange(from, to) == trim(s),
{
    let t = trim_start(s);
    lemma_trim_start(s);
    lemma_trim_end(t);
    let from = s.len() - t.len();
    let to = from + trim(s).len();
    assert(s.subrange(from, to) =~= trim(s));
}

/// White space at the front of a text that goes on with something else is what
/// trimming takes away.
pub proof fn lemma_trim_start_is(blank: Seq<char>, s: Seq<char>)
    requires
        forall|i: int| 0 <= i < blank.len() ==> is_space(#[trigger] blank[i]),
        s.len() > 0 ==> !is_space(s[0]),
    ensures
        trim_start(blank + s) == s,
    decreases blank.len(),
{
    let all = blank + s;
    if blank.len() == 0 {
        assert(all =~= s);
    } else {
        assert(all.skip(1) =~= blank.skip(1) + s);
        assert(all[0] == blank[0]);
        assert forall|i: int| 0 <= i < blank.skip(1).len() implies is_space(
            #[trigger] blank.skip(1)[i],
        ) by {
            assert(blank.skip(1)[i] == blank[i + 1]);
        }
        lemma_trim_start_is(blank.skip(1), s);
    }
}

/// What is trimmed from the front is white space.
pub proof fn lemma_trimmed_is_space(s: Seq<char>)
    ensures
        forall|i: int| 0 <= i < s.len() - trim_start(s).len() ==> is_space(#[trigger] s[i]),
    decreases s.len(),
{
    if s.len() > 0 && is_space(s[0]) {
        lemma_trimmed_is_space(s.skip(1));
        assert forall|i: int| 0 <= i < s.len() - trim_start(s).len() implies is_space(
            #[trigger] s[i],
        ) by {
            if i > 0 {
                assert(s.skip(1)[i - 1] == s[i]);
            }
        }
    }
}

/// Words with a blank between each two of them are taken apart again.
pub proof fn lemma_words_join(ws: Seq<Seq<char>>)
    requires
        forall|i: int| 0 <= i < ws.len() ==> is_word(#[trigger] ws[i]),
    ensures
        words(join(ws, seq![' '])) == ws,
    decreases ws.len(),
{
    let s = join(ws, seq![' ']);
    if ws.len() == 0 {
        assert(words(s) =~= ws);
    } else {
        let w = ws[0];
        let rest = ws.skip(1);
        assert(is_word(w));
        assert(s[0] == w[0]);
        assert(trim_start(s) == s);
        if ws.len() == 1 {
            lemma_word_len_is(s, w.len() as int);
            assert(s.take(w.len() as int) =~= w);
            assert(s.skip(w.len() as int) =~= Seq::<char>::empty());
            assert(words(Seq::<char>::empty()) =~= Seq::<Seq<char>>::empty());
            assert(words(s) =~= ws);
        } else {
            let tail = join(rest, seq![' ']);
            assert(s =~= w + seq![' '] + tail);
            assert forall|i: int| 0 <= i < w.len() implies !is_space(#[trigger] s[i]) by {
                assert(s[i] == w[i]);
            }
            assert(s[w.len() as int] == ' ');
            lemma_word_len_is(s, w.len() as int);
            assert(s.take(w.len() as int) =~= w);
            let behind = s.skip(w.len() as int);
            assert(behind =~= seq![' '] + tail);
            assert(behind.skip(1) =~= tail);
            assert(trim_start(behind) == trim_start(tail));
            assert(words(behind) == words(tail));
            assert forall|i: int| 0 <= i < rest.len() implies is_word(#[trigger] rest[i]) by {
                assert(rest[i] == ws[i + 1]);
            }
            lemma_words_join(rest);
            assert(words(s) == seq![w] + words(behind));
            assert(seq![w] + rest =~= ws);
        }
    }
}

/// The first place of a character is known by what comes before it.
pub proof fn lemma_first_at_is(s: Seq<char>, c: char, n: int)
    requires
        0 <= n < s.len(),
        s[n] == c,
        forall|i: int| 0 <= i < n ==> #[trigger] s[i] != c,
    ensures
        first_at(s, c) == n,
{
    lemma_first_at(s, c);
    let m = first_at(s, c);
    if m < n {
        assert(s[m] != c);
    }
}

/// The last place of a character is known by what comes after it.
pub proof fn lemma_last_at_is(s: Seq<char>, c: char, n: int)
    requires
        0 <= n < s.len(),
        s[n] == c,
        forall|i: int| n < i < s.len() ==> #[trigger] s[i] != c,
    ensures
        last_at(s, c) == n,
{
    lemma_last_at(s, c);
    let m = last_at(s, c);
    if m > n {
        assert(s[m] != c);
    } else if m < n {
        assert(s[n] != c);
    }
}

/// No line of a text holds a line feed, and a text that is not empty has a line.
pub proof fn lemma_lines(s: Seq<char>)
    ensures
        s.len() > 0 ==> lines(s).len() > 0,
        forall|i: int| 0 <= i < lines(s).len() ==> !(#[trigger] lines(s)[i]).contains('\n'),
    decreases s.len(),
{
    let n = first_at(s, '\n');
    lemma_first_at(s, '\n');
    if s.len() > 0 && n < s.len() {
        let rest = s.skip(n + 1);
        lemma_lines(rest);
        let line = chomp(s.take(n));
        assert(lines(s) == seq![line] + lines(rest));
        assert forall|i: int| 0 <= i < lines(s).len() implies !(#[trigger] lines(s)[i]).contains(
            '\n',
        ) by {
            if i == 0 {
                assert forall|k: int| 0 <= k < line.len() implies line[k] != '\n' by {
                    assert(line[k] == s[k]);
                }
            } else {
                assert(lines(s)[i] == lines(rest)[i - 1]);
            }
        }
    } else if s.len() > 0 {
        assert(lines(s) == seq![s]);
        assert forall|k: int| 0 <= k < s.len() implies s[k] != '\n' by {}
    }
}

/// Lines without their carriage returns.
pub open spec fn chomped(ls: Seq<Seq<char>>) -> Seq<Seq<char>> {
    ls.map_values(|l: Seq<char>| chomp(l))
}

/// Lines that were put one below the other are taken apart again, each without
/// a carriage return at its end.
pub proof fn lemma_lines_join(ls: Seq<Seq<char>>)
    requires
        ls.len() > 0,
        forall|i: int| 0 <= i < ls.len() ==> !(#[trigger] ls[i]).contains('\n'),
    ensures
        lines(join(ls, seq!['\n']).push('\n')) == chomped(ls),
    decreases ls.len(),
{
    let s = join(ls, seq!['\n']).push('\n');
    let l = ls[0];
    let n = l.len() as int;
    let rest = ls.skip(1);
    assert forall|i: int| 0 <= i < n implies #[trigger] s[i] != '\n' by {
        assert(s[i] == l[i]);
        assert(l.contains(l[i]));
    }
    lemma_first_at_is(s, '\n', n);
    assert(s.take(n) =~= l);
    if ls.len() == 1 {
        assert(s.skip(n + 1) =~= Seq::<char>::empty());
        assert(lines(s.skip(n + 1)) =~= Seq::<Seq<char>>::empty());
        assert(lines(s) =~= chomped(ls));
    } else {
        assert(s.skip(n + 1) =~= join(rest, seq!['\n']).push('\n'));
        assert forall|i: int| 0 <= i < rest.len() implies !(#[trigger] rest[i]).contains(
            '\n',
        ) by {
            assert(rest[i] == ls[i + 1]);
        }
        lemma_lines_join(rest);
        assert(lines(s) == seq![chomp(l)] + chomped(rest));
        assert(seq![chomp(l)] + chomped(rest) =~= chomped(ls));
    }
}

// --------------------------------------------------------------------- laws

proof fn lemma_trim_blank(blank: Seq<char>, s: Seq<char>)
    requires
        forall|i: int| 0 <= i < blank.len() ==> is_space(#[trigger] blank[i]),
    ensures
        trim_start(blank + s) == trim_start(s),
    decreases blank.len(),
{
    let all = blank + s;
    if blank.len() == 0 {
        assert(all =~= s);
    } else {
        assert(all.skip(1) =~= blank.skip(1) + s);
        assert(all[0] == blank[0]);
        assert forall|i: int| 0 <= i < blank.skip(1).len() implies is_space(
            #[trigger] blank.skip(1)[i],
        ) by {
            assert(blank.skip(1)[i] == blank[i + 1]);
        }
        lemma_trim_blank(blank.skip(1), s);
    }
}

proof fn lemma_words_behind_blank(blank: Seq<char>, s: Seq<char>)
    requires
        forall|i: int| 0 <= i < blank.len() ==> is_space(#[trigger] blank[i]),
    ensures
        words(blank + s) == words(s),
{
    lemma_trim_blank(blank, s);
}

/// White space stands between words: the words of two texts with white space
/// between them are those of the one and those of the other.
pub proof fn law_words_apart(a: Seq<char>, c: char, b: Seq<char>)
    requires
        is_space(c),
    ensures
        words(a + seq![c] + b) == words(a) + words(b),
    decreases a.len(),
{
    let s = a + seq![c] + b;
    let t = trim_start(a);
    lemma_trim_start(a);
    lemma_trimmed_is_space(a);
    if t.len() == 0 {
        let blank = a + seq![c];
        assert forall|i: int| 0 <= i < blank.len() implies is_space(#[trigger] blank[i]) by {
            if i < a.len() {
                assert(blank[i] == a[i]);
            }
        }
        lemma_words_behind_blank(blank, b);
        assert(words(a) + words(b) =~= words(b));
    } else {
        let blank = a.take(a.len() - t.len());
        let u = t + seq![c] + b;
        let n = word_len(t) as int;
        lemma_word_len(t);
        assert(s =~= blank + u);
        assert(u[0] == t[0]);
        assert forall|i: int| 0 <= i < blank.len() implies is_space(#[trigger] blank[i]) by {
            assert(blank[i] == a[i]);
        }
        lemma_trim_start_is(blank, u);
        assert forall|i: int| 0 <= i < n implies !is_space(#[trigger] u[i]) by {
            assert(u[i] == t[i]);
        }
        lemma_word_len_is(u, n);
        assert(u.skip(n) =~= t.skip(n) + seq![c] + b);
        assert(u.take(n) =~= t.take(n));
        law_words_apart(t.skip(n), c, b);
        assert(words(s) =~= words(a) + words(b));
    }
}

/// A word is its own only word, and an empty text has none.
pub proof fn law_word_alone(w: Seq<char>)
    requires
        is_word(w),
    ensures
        words(w) == seq![w],
        words(Seq::<char>::empty()) == Seq::<Seq<char>>::empty(),
{
    lemma_word_len_is(w, w.len() as int);
    assert(trim_start(w) == w);
    assert(w.take(w.len() as int) =~= w);
    assert(w.skip(w.len() as int) =~= Seq::<char>::empty());
    assert(words(w.skip(w.len() as int)) =~= Seq::<Seq<char>>::empty());
    assert(words(w) =~= seq![w]);
}

/// The text ends where a word may begin: it is empty, or ends in white space.
pub open spec fn open_ended(s: Seq<char>) -> bool {
    s.len() == 0 || is_space(s.last())
}

/// A word behind a text that is open at its end is one more word.
pub proof fn law_word_added(front: Seq<char>, w: Seq<char>)
    requires
        open_ended(front),
        is_word(w),
    ensures
        words(front + w) == words(front).push(w),
{
    law_word_alone(w);
    if front.len() == 0 {
        assert(front + w =~= w);
        assert(front =~= Seq::<char>::empty());
        assert(words(w) =~= words(front).push(w));
    } else {
        let a = front.drop_last();
        let c = front.last();
        law_words_apart(a, c, w);
        law_words_apart(a, c, Seq::empty());
        assert(a + seq![c] + w =~= front + w);
        assert(a + seq![c] + Seq::<char>::empty() =~= front);
        assert(words(a) + words(w) =~= words(front).push(w));
    }
}

/// The words of a text are words.
pub proof fn law_word_is_not_empty(s: Seq<char>, i: int)
    requires
        0 <= i < words(s).len(),
    ensures
        words(s)[i].len() > 0,
        forall|k: int| 0 <= k < words(s)[i].len() ==> !is_space(#[trigger] words(s)[i][k]),
{
    lemma_words(s, i);
}

/// Trimming takes the white space at both ends away, and nothing else.
pub proof fn law_trim(before: Seq<char>, s: Seq<char>, after: Seq<char>)
    requires
        forall|i: int| 0 <= i < before.len() ==> is_space(#[trigger] before[i]),
        forall|i: int| 0 <= i < after.len() ==> is_space(#[trigger] after[i]),
        s.len() > 0 ==> !is_space(s[0]) && !is_space(s.last()),
    ensures
        trim(before + s + after) == s,
{
    assert(before + s + after =~= before + (s + after));
    lemma_trim_blank(before, s + after);
    if s.len() > 0 {
        assert((s + after)[0] == s[0]);
        assert(trim_start(s + after) == s + after);
    } else {
        assert(s + after =~= after + Seq::<char>::empty());
        lemma_trim_blank(after, Seq::empty());
    }
    lemma_trim_end_is(s, after);
    assert(s.len() == 0 ==> trim_end(Seq::<char>::empty()) =~= s);
}

pub proof fn lemma_trim_end_is(s: Seq<char>, after: Seq<char>)
    requires
        forall|i: int| 0 <= i < after.len() ==> is_space(#[trigger] after[i]),
        s.len() > 0 ==> !is_space(s.last()),
    ensures
        trim_end(s + after) == s,
    decreases after.len(),
{
    let all = s + after;
    if after.len() == 0 {
        assert(all =~= s);
    } else {
        assert(all.drop_last() =~= s + after.drop_last());
        assert(all.last() == after[after.len() - 1]);
        assert forall|i: int| 0 <= i < after.drop_last().len() implies is_space(
            #[trigger] after.drop_last()[i],
        ) by {
            assert(after.drop_last()[i] == after[i]);
        }
        lemma_trim_end_is(s, after.drop_last());
    }
}

/// A line feed ends a line, alone or behind a carriage return, and what follows
/// are the other lines; a text that is not empty and holds none is one line.
pub proof fn law_lines_apart(line: Seq<char>, rest: Seq<char>)
    requires
        !line.contains('\n'),
    ensures
        lines(line + seq!['\n'] + rest).skip(1) == lines(rest),
        lines(line + seq!['\n'] + rest).len() == lines(rest).len() + 1,
        (line.len() == 0 || line.last() != '\r') ==> lines(line + seq!['\n'] + rest)[0] == line,
        lines(line + seq!['\r', '\n'] + rest) == seq![line] + lines(rest),
        line.len() > 0 ==> lines(line) == seq![line],
        lines(Seq::<char>::empty()) == Seq::<Seq<char>>::empty(),
{
    let n = line.len() as int;
    let s = line + seq!['\n'] + rest;
    assert forall|i: int| 0 <= i < n implies line[i] != '\n' by {
        assert(line.contains(line[i]));
    }
    lemma_first_at_is(s, '\n', n);
    assert(s.take(n) =~= line);
    assert(s.skip(n + 1) =~= rest);
    assert(lines(s).skip(1) =~= lines(rest));
    let t = line + seq!['\r', '\n'] + rest;
    lemma_first_at_is(t, '\n', n + 1);
    assert(t.take(n + 1) =~= line.push('\r'));
    assert(line.push('\r').drop_last() =~= line);
    assert(t.skip(n + 2) =~= rest);
    lemma_first_at(line, '\n');
    if first_at(line, '\n') < n {
        assert(line[first_at(line, '\n')] == '\n');
    }
    assert(lines(Seq::<char>::empty()) =~= Seq::<Seq<char>>::empty());
}

/// A separator that no piece holds takes a text apart where it stands.
pub proof fn law_split_apart(piece: Seq<char>, d: char, rest: Seq<char>)
    requires
        !piece.contains(d),
    ensures
        split_on(piece, d) == seq![piece],
        split_on(piece + seq![d] + rest, d) == seq![piece] + split_on(rest, d),
{
    let n = piece.len() as int;
    let s = piece + seq![d] + rest;
    assert forall|i: int| 0 <= i < n implies piece[i] != d by {
        assert(piece.contains(piece[i]));
    }
    lemma_first_at_is(s, d, n);
    assert(s.take(n) =~= piece);
    assert(s.skip(n + 1) =~= rest);
    lemma_first_at(piece, d);
    if first_at(piece, d) < n {
        assert(piece[first_at(piece, d)] == d);
    }
}

/// A separator between two texts takes them apart, each into its own pieces.
pub proof fn law_split_between(a: Seq<char>, d: char, b: Seq<char>)
    ensures
        split_on(a + seq![d] + b, d) == split_on(a, d) + split_on(b, d),
    decreases a.len(),
{
    let s = a + seq![d] + b;
    let n = first_at(a, d);
    lemma_first_at(a, d);
    if n >= a.len() {
        assert(!a.contains(d));
        law_split_apart(a, d, b);
    } else {
        let piece = a.take(n);
        let rest = a.skip(n + 1);
        assert forall|i: int| 0 <= i < n implies piece[i] != d by {
            assert(piece[i] == a[i]);
        }
        law_split_between(rest, d, b);
        law_split_apart(piece, d, rest + seq![d] + b);
        law_split_apart(piece, d, rest);
        assert(piece + seq![d] + (rest + seq![d] + b) =~= s);
        assert(piece + seq![d] + rest =~= a);
        assert(seq![piece] + (split_on(rest, d) + split_on(b, d)) =~= (seq![piece] + split_on(
            rest,
            d,
        )) + split_on(b, d));
    }
}

/// One more text is joined behind the separator; a single text stands alone.
pub proof fn law_join(parts: Seq<Seq<char>>, sep: Seq<char>, last: Seq<char>)
    ensures
        join(parts.push(last), sep) == (if parts.len() == 0 {
            last
        } else {
            join(parts, sep) + sep + last
        }),
        join(Seq::<Seq<char>>::empty(), sep) == Seq::<char>::empty(),
{
    if parts.len() > 0 {
        lemma_join_push(parts, sep, last);
    }
}

/// A text begins with another where the rest stands behind it, and only there.
pub proof fn law_begins(s: Seq<char>, p: Seq<char>, rest: Seq<char>)
    ensures
        begins(p + rest, p),
        begins(s, p) ==> s == p + s.skip(p.len() as int),
{
    assert((p + rest).take(p.len() as int) =~= p);
    if begins(s, p) {
        assert(s =~= s.take(p.len() as int) + s.skip(p.len() as int));
    }
}

/// A text holds another where it stands between two others, and only there.
pub proof fn law_has(a: Seq<char>, p: Seq<char>, b: Seq<char>, s: Seq<char>)
    ensures
        has(a + p + b, p),
        has(s, p) ==> exists|x: Seq<char>, y: Seq<char>| s == #[trigger] (x + p + y),
{
    let t = a + p + b;
    assert(t.subrange(a.len() as int, (a.len() + p.len()) as int) =~= p);
    assert(occurs_at(t, p, a.len() as int));
    if has(s, p) {
        let i = choose|i: int| occurs_at(s, p, i);
        let x = s.take(i);
        let y = s.skip(i + p.len());
        assert(s =~= x + p + y);
    }
}

/// The white space of the Unicode standard: tab to carriage return, the blank,
/// and the other spaces and separators.
pub proof fn law_white_space(c: char)
    ensures
        ({
            let n = c as u32;
            is_space(c) <==> (n == 9 || n == 10 || n == 11 || n == 12 || n == 13 || n == 32 || n
                == 0x85 || n == 0xA0 || n == 0x1680 || 0x2000 <= n <= 0x200A || n == 0x2028 || n
                == 0x2029 || n == 0x202F || n == 0x205F || n == 0x3000)
        }),
{
}

} // verus!

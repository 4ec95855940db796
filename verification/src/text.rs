//! Text as a sequence of characters: the searching, trimming, splitting and
//! formatting that the rest of the crate is built on.

use vstd::prelude::*;

verus! {

/// `String::push` appends one character.
pub assume_specification[ String::push ](s: &mut String, c: char)
    ensures
        final(s)@ == old(s)@.push(c),
;

/// `==` on string slices compares their characters.
pub assume_specification[ <str as PartialEq<str>>::eq ](a: &str, b: &str) -> (res: bool)
    ensures
        res == (a@ == b@),
;

// ---------------------------------------------------------------------------
// Characters
// ---------------------------------------------------------------------------

/// The characters of each text of a list.
pub open spec fn texts(v: Seq<String>) -> Seq<Seq<char>> {
    v.map_values(|t: String| t@)
}

/// The characters of an optional text.
pub open spec fn opt_text(t: Option<String>) -> Option<Seq<char>> {
    match t {
        Some(s) => Some(s@),
        None => None,
    }
}

/// The characters of an optional borrowed text.
pub open spec fn opt_str(t: Option<&str>) -> Option<Seq<char>> {
    match t {
        Some(s) => Some(s@),
        None => None,
    }
}

/// The characters of a text.
pub fn chars_of(s: &str) -> (res: Vec<char>)
    ensures
        res@ == s@,
{
    let mut res: Vec<char> = Vec::new();
    for c in it: s.chars()
        invariant
            res@ == it.seq().take(it.index() as int),
            it.seq() == s@,
    {
        res.push(c);
    }
    res
}

/// The text made of `chars[from..to]`.
pub fn slice_text(chars: &[char], from: usize, to: usize) -> (res: String)
    requires
        from <= to <= chars@.len(),
    ensures
        res@ == chars@.subrange(from as int, to as int),
{
    let mut res = String::new();
    let mut i: usize = from;
    while i < to
        invariant
            from <= i <= to <= chars@.len(),
            res@ == chars@.subrange(from as int, i as int),
        decreases to - i,
    {
        res.push(chars[i]);
        assert(chars@.subrange(from as int, i + 1) =~= chars@.subrange(from as int, i as int).push(
            chars@[i as int],
        ));
        i += 1;
    }
    res
}

/// A copy of an optional borrowed text.
pub fn owned(t: Option<&str>) -> (res: Option<String>)
    ensures
        opt_text(res) == opt_str(t),
{
    match t {
        Some(s) => Some(s.to_owned()),
        None => None,
    }
}

/// A copy of an optional text.
pub fn copied(t: &Option<String>) -> (res: Option<String>)
    ensures
        res == *t,
{
    match t {
        Some(s) => Some(s.clone()),
        None => None,
    }
}

/// The text itself, or nothing where there is none.
pub open spec fn or_empty(t: Option<String>) -> Seq<char> {
    match t {
        Some(s) => s@,
        None => Seq::empty(),
    }
}

/// `t`, or the empty text where there is none.
pub fn text_or_empty(t: &Option<String>) -> (res: String)
    ensures
        res@ == or_empty(*t),
        t is None ==> res@.len() == 0,
        t is Some ==> res@ == t->0@,
{
    match t {
        Some(s) => s.clone(),
        None => String::new(),
    }
}

// ---------------------------------------------------------------------------
// Searching
// ---------------------------------------------------------------------------

/// `p` stands in `s` at position `i`.
pub open spec fn occurs_at(s: Seq<char>, p: Seq<char>, i: int) -> bool {
    &&& 0 <= i
    &&& i + p.len() <= s.len()
    &&& s.subrange(i, i + p.len()) == p
}

/// `s` begins with `p`.
pub open spec fn has_prefix(s: Seq<char>, p: Seq<char>) -> bool {
    occurs_at(s, p, 0)
}

/// `s` ends with `p`.
pub open spec fn has_suffix(s: Seq<char>, p: Seq<char>) -> bool {
    occurs_at(s, p, s.len() - p.len())
}

/// `p` stands somewhere in `s`.
pub open spec fn has_text(s: Seq<char>, p: Seq<char>) -> bool {
    exists|i: int| occurs_at(s, p, i)
}

/// Whether `p` stands in `s` at position `at`.
fn matches_at(s: &[char], p: &[char], at: usize) -> (res: bool)
    requires
        at + p@.len() <= s@.len(),
    ensures
        res == occurs_at(s@, p@, at as int),
{
    let total: usize = s.len();
    let mut i: usize = 0;
    while i < p.len()
        invariant
            total == s@.len(),
            at + p@.len() <= total,
            i <= p@.len(),
            forall|j: int| 0 <= j < i ==> s@[at + j] == p@[j],
        decreases p@.len() - i,
    {
        if s[at + i] != p[i] {
            assert(s@.subrange(at as int, at + p@.len())[i as int] != p@[i as int]);
            return false;
        }
        i += 1;
    }
    assert(s@.subrange(at as int, at + p@.len()) =~= p@);
    true
}

/// Whether `s` begins with `p`.
pub fn starts_with(s: &str, p: &str) -> (res: bool)
    ensures
        res == has_prefix(s@, p@),
        res <==> p@.len() <= s@.len() && s@.take(p@.len() as int) == p@,
{
    let s = chars_of(s);
    let p = chars_of(p);
    assert(p@.len() <= s@.len() ==> s@.subrange(0, p@.len() as int) =~= s@.take(p@.len() as int));
    p.len() <= s.len() && matches_at(&s, &p, 0)
}

/// Whether `s` ends with `p`.
pub fn ends_with(s: &str, p: &str) -> (res: bool)
    ensures
        res == has_suffix(s@, p@),
        res <==> p@.len() <= s@.len() && s@.skip(s@.len() - p@.len()) == p@,
{
    let s = chars_of(s);
    let p = chars_of(p);
    assert(p@.len() <= s@.len() ==> s@.subrange(s@.len() - p@.len(), s@.len() as int) =~= s@.skip(
        s@.len() - p@.len(),
    ));
    p.len() <= s.len() && matches_at(&s, &p, s.len() - p.len())
}

/// A text stands somewhere where its characters stand one after the other.
proof fn lemma_occurrences(s: Seq<char>, p: Seq<char>)
    ensures
        has_text(s, p) <==> exists|i: int|
            0 <= i && i + p.len() <= s.len() && #[trigger] s.subrange(i, i + p.len()) == p,
{
    if has_text(s, p) {
        let i = choose|i: int| occurs_at(s, p, i);
        assert(s.subrange(i, i + p.len()) == p);
    }
    if exists|i: int|
        0 <= i && i + p.len() <= s.len() && #[trigger] s.subrange(i, i + p.len()) == p {
        let i = choose|i: int|
            0 <= i && i + p.len() <= s.len() && #[trigger] s.subrange(i, i + p.len()) == p;
        assert(occurs_at(s, p, i));
    }
}

/// Whether `p` stands somewhere in `s`.
pub fn contains(s: &str, p: &str) -> (res: bool)
    ensures
        res == has_text(s@, p@),
        res <==> exists|i: int|
            0 <= i && i + p@.len() <= s@.len() && #[trigger] s@.subrange(i, i + p@.len()) == p@,
{
    let text = chars_of(s);
    let part = chars_of(p);
    proof {
        lemma_occurrences(s@, p@);
    }
    if part.len() > text.len() {
        return false;
    }
    let last: usize = text.len() - part.len();
    let mut i: usize = 0;
    while i <= last
        invariant
            text@ == s@,
            part@ == p@,
            p@.len() <= s@.len(),
            last == s@.len() - p@.len(),
            i <= last + 1,
            forall|j: int| 0 <= j < i ==> !occurs_at(s@, p@, j),
            has_text(s@, p@) <==> exists|j: int|
                0 <= j && j + p@.len() <= s@.len() && #[trigger] s@.subrange(j, j + p@.len()) == p@,
        decreases last + 1 - i,
    {
        if matches_at(&text, &part, i) {
            return true;
        }
        if i == last {
            return false;
        }
        i += 1;
    }
    false
}

/// What follows `p` at the front of `s`, where it stands there.
pub open spec fn after_prefix(s: Seq<char>, p: Seq<char>) -> Option<Seq<char>> {
    if has_prefix(s, p) {
        Some(s.skip(p.len() as int))
    } else {
        None
    }
}

/// What follows `p` at the front of `s`, where it stands there.
pub fn strip_prefix(s: &str, p: &str) -> (res: Option<String>)
    ensures
        opt_text(res) == after_prefix(s@, p@),
        res is Some ==> s@ == p@ + res->0@,
        res is None ==> !(p@.len() <= s@.len() && s@.take(p@.len() as int) == p@),
{
    if !starts_with(s, p) {
        return None;
    }
    let s = chars_of(s);
    let p = chars_of(p);
    let rest = slice_text(&s, p.len(), s.len());
    assert(rest@ =~= s@.skip(p@.len() as int));
    assert(s@ =~= s@.take(p@.len() as int) + rest@);
    Some(rest)
}

/// Position of the first `c` in `s`, or the length of `s` where there is none.
pub open spec fn first_index_of(s: Seq<char>, c: char) -> int
    decreases s.len(),
{
    if s.len() == 0 || s[0] == c {
        0
    } else {
        1 + first_index_of(s.drop_first(), c)
    }
}

/// `first_index_of` is the first position that holds `c`.
pub proof fn lemma_first_index_of(s: Seq<char>, c: char)
    ensures
        0 <= first_index_of(s, c) <= s.len(),
        forall|j: int| 0 <= j < first_index_of(s, c) ==> s[j] != c,
        first_index_of(s, c) < s.len() ==> s[first_index_of(s, c)] == c,
    decreases s.len(),
{
    if s.len() > 0 && s[0] != c {
        let t = s.drop_first();
        lemma_first_index_of(t, c);
        assert forall|j: int| 0 <= j < first_index_of(s, c) implies s[j] != c by {
            if j > 0 {
                assert(t[j - 1] == s[j]);
            }
        }
    }
}

/// A position before which there is no `c`, and which holds one or is the end,
/// is `first_index_of`.
pub proof fn lemma_first_index_is(s: Seq<char>, c: char, i: int)
    requires
        0 <= i <= s.len(),
        forall|j: int| 0 <= j < i ==> s[j] != c,
        i < s.len() ==> s[i] == c,
    ensures
        first_index_of(s, c) == i,
{
    lemma_first_index_of(s, c);
    let k = first_index_of(s, c);
    if k < i {
        assert(s[k] == c);
    }
    if i < k {
        assert(s[i] == c);
    }
}

/// Whether `c` occurs in `s`.
pub fn contains_char(s: &str, c: char) -> (res: bool)
    ensures
        res == s@.contains(c),
{
    let text = chars_of(s);
    let mut i: usize = 0;
    while i < text.len()
        invariant
            text@ == s@,
            i <= s@.len(),
            forall|j: int| 0 <= j < i ==> s@[j] != c,
        decreases s@.len() - i,
    {
        if text[i] == c {
            return true;
        }
        i += 1;
    }
    false
}

// ---------------------------------------------------------------------------
// Splitting
// ---------------------------------------------------------------------------

/// What stands before and after the first `c` of `s`.
pub open spec fn split_once_at(s: Seq<char>, c: char) -> Option<(Seq<char>, Seq<char>)> {
    let i = first_index_of(s, c);
    if i < s.len() {
        Some((s.take(i), s.skip(i + 1)))
    } else {
        None
    }
}

/// The pieces of `s` between one `c` and the next.
pub open spec fn split_on(s: Seq<char>, c: char) -> Seq<Seq<char>>
    decreases s.len(),
{
    let i = first_index_of(s, c);
    if 0 <= i < s.len() {
        seq![s.take(i)] + split_on(s.skip(i + 1), c)
    } else {
        seq![s]
    }
}

/// What stands before and after the first `c` of `s`.
pub fn split_once(s: &str, c: char) -> (res: Option<(String, String)>)
    ensures
        match (res, split_once_at(s@, c)) {
            (Some(r), Some(p)) => r.0@ == p.0 && r.1@ == p.1,
            (None, None) => true,
            _ => false,
        },
        match res {
            Some((head, tail)) => s@ == head@ + seq![c] + tail@ && !head@.contains(c),
            None => !s@.contains(c),
        },
{
    let text = chars_of(s);
    let mut i: usize = 0;
    while i < text.len()
        invariant
            text@ == s@,
            i <= s@.len(),
            forall|j: int| 0 <= j < i ==> s@[j] != c,
        decreases s@.len() - i,
    {
        if text[i] == c {
            proof {
                lemma_first_index_is(s@, c, i as int);
            }
            let head = slice_text(&text, 0, i);
            let tail = slice_text(&text, i + 1, text.len());
            assert(head@ =~= s@.take(i as int));
            assert(tail@ =~= s@.skip(i + 1));
            assert(s@ =~= head@ + seq![c] + tail@);
            return Some((head, tail));
        }
        i += 1;
    }
    proof {
        lemma_first_index_is(s@, c, i as int);
    }
    None
}

/// The pieces of `s` between one `c` and the next.
pub fn split(s: &str, c: char) -> (res: Vec<String>)
    ensures
        texts(res@) == split_on(s@, c),
        joined(texts(res@), seq![c]) == s@,
        forall|i: int| 0 <= i < res@.len() ==> !(#[trigger] res@[i])@.contains(c),
{
    let s = chars_of(s);
    let mut parts: Vec<String> = Vec::new();
    let mut start: usize = 0;
    let mut i: usize = 0;
    assert(s@.skip(0) =~= s@);
    assert(texts(parts@) + split_on(s@.skip(0), c) =~= split_on(s@, c));
    while i < s.len()
        invariant
            start <= i <= s@.len(),
            forall|j: int| start <= j < i ==> s@[j] != c,
            texts(parts@) + split_on(s@.skip(start as int), c) == split_on(s@, c),
        decreases s@.len() - i,
    {
        if s[i] == c {
            let piece = slice_text(&s, start, i);
            let ghost rest = s@.skip(start as int);
            let ghost before = texts(parts@);
            proof {
                lemma_first_index_is(rest, c, i - start);
                assert(rest.take(i - start) =~= piece@);
                assert(rest.skip(i - start + 1) =~= s@.skip(i + 1));
            }
            parts.push(piece);
            start = i + 1;
            assert(texts(parts@) =~= before.push(piece@));
            assert(texts(parts@) + split_on(s@.skip(start as int), c) =~= before + split_on(
                rest,
                c,
            ));
        }
        i += 1;
    }
    let piece = slice_text(&s, start, s.len());
    let ghost rest = s@.skip(start as int);
    let ghost before = texts(parts@);
    proof {
        lemma_first_index_is(rest, c, rest.len() as int);
        assert(piece@ =~= rest);
    }
    parts.push(piece);
    assert(texts(parts@) =~= before + seq![rest]);
    proof {
        lemma_pieces_make_up_the_text(s@, c);
        assert forall|k: int| 0 <= k < parts@.len() implies !(#[trigger] parts@[k])@.contains(c) by {
            assert(texts(parts@)[k] == parts@[k]@);
        }
    }
    parts
}

/// The lines of `s`: the pieces between line feeds, without the carriage
/// return that stands before one; nothing follows a final line feed.
pub open spec fn lines_of(s: Seq<char>) -> Seq<Seq<char>>
    decreases s.len(),
{
    let i = first_index_of(s, '\n');
    if s.len() == 0 {
        Seq::empty()
    } else if 0 <= i < s.len() {
        seq![without_return(s.take(i))] + lines_of(s.skip(i + 1))
    } else {
        seq![s]
    }
}

/// `s` without one final carriage return.
pub open spec fn without_return(s: Seq<char>) -> Seq<char> {
    if s.len() > 0 && s.last() == '\r' {
        s.drop_last()
    } else {
        s
    }
}

/// The lines of `s`.
pub fn lines(s: &str) -> (res: Vec<String>)
    ensures
        texts(res@) == lines_of(s@),
{
    let s = chars_of(s);
    let mut out: Vec<String> = Vec::new();
    let mut start: usize = 0;
    let mut i: usize = 0;
    assert(s@.skip(0) =~= s@);
    assert(texts(out@) + lines_of(s@.skip(0)) =~= lines_of(s@));
    while i < s.len()
        invariant
            start <= i <= s@.len(),
            forall|j: int| start <= j < i ==> s@[j] != '\n',
            texts(out@) + lines_of(s@.skip(start as int)) == lines_of(s@),
        decreases s@.len() - i,
    {
        if s[i] == '\n' {
            let end: usize = if i > start && s[i - 1] == '\r' {
                i - 1
            } else {
                i
            };
            let line = slice_text(&s, start, end);
            let ghost rest = s@.skip(start as int);
            let ghost before = texts(out@);
            proof {
                lemma_first_index_is(rest, '\n', i - start);
                assert(without_return(rest.take(i - start)) =~= line@);
                assert(rest.skip(i - start + 1) =~= s@.skip(i + 1));
            }
            out.push(line);
            start = i + 1;
            assert(texts(out@) =~= before.push(line@));
            assert(texts(out@) + lines_of(s@.skip(start as int)) =~= before + lines_of(rest));
        }
        i += 1;
    }
    let ghost rest = s@.skip(start as int);
    if start < s.len() {
        let line = slice_text(&s, start, s.len());
        let ghost before = texts(out@);
        proof {
            lemma_first_index_is(rest, '\n', rest.len() as int);
            assert(line@ =~= rest);
        }
        out.push(line);
        assert(texts(out@) =~= before + seq![rest]);
    } else {
        assert(texts(out@) + lines_of(rest) =~= texts(out@));
    }
    out
}

/// The parts one after the other, with `sep` between them.
pub open spec fn joined(parts: Seq<Seq<char>>, sep: Seq<char>) -> Seq<char>
    decreases parts.len(),
{
    if parts.len() == 0 {
        Seq::empty()
    } else if parts.len() == 1 {
        parts[0]
    } else {
        joined(parts.drop_last(), sep) + sep + parts.last()
    }
}

/// The parts one after the other, with `sep` between them.
pub fn join(parts: &[String], sep: &str) -> (res: String)
    ensures
        res@ == joined(texts(parts@), sep@),
{
    let mut res = String::new();
    for i in 0..parts.len()
        invariant
            res@ == joined(texts(parts@).take(i as int), sep@),
    {
        if i > 0 {
            res.append(sep);
        }
        res.append(parts[i].as_str());
        let ghost upto = texts(parts@).take(i + 1);
        assert(upto.drop_last() =~= texts(parts@).take(i as int));
        assert(upto.last() == parts@[i as int]@);
        assert(res@ =~= joined(upto, sep@));
    }
    assert(texts(parts@).take(parts@.len() as int) =~= texts(parts@));
    res
}

// ---------------------------------------------------------------------------
// Trimming
// ---------------------------------------------------------------------------

/// `s` without the `c`s at its end.
pub open spec fn without_trailing(s: Seq<char>, c: char) -> Seq<char>
    decreases s.len(),
{
    if s.len() > 0 && s.last() == c {
        without_trailing(s.drop_last(), c)
    } else {
        s
    }
}

/// `s` without the `c`s at its end.
pub fn trim_end_char(s: &str, c: char) -> (res: String)
    ensures
        res@ == without_trailing(s@, c),
        res@.len() <= s@.len(),
        res@ == s@.take(res@.len() as int),
        forall|i: int| res@.len() <= i < s@.len() ==> s@[i] == c,
        res@.len() > 0 ==> res@.last() != c,
{
    let s = chars_of(s);
    let mut end: usize = s.len();
    assert(s@.take(end as int) =~= s@);
    while end > 0 && s[end - 1] == c
        invariant
            end <= s@.len(),
            without_trailing(s@.take(end as int), c) == without_trailing(s@, c),
            forall|i: int| end <= i < s@.len() ==> s@[i] == c,
        decreases end,
    {
        assert(s@.take(end as int).drop_last() =~= s@.take(end - 1));
        end -= 1;
    }
    let res = slice_text(&s, 0, end);
    assert(res@ =~= s@.take(end as int));
    res
}

/// The characters with the Unicode property `White_Space`.
pub open spec fn is_space(c: char) -> bool {
    ||| '\u{9}' <= c <= '\u{d}'
    ||| c == '\u{20}'
    ||| c == '\u{85}'
    ||| c == '\u{a0}'
    ||| c == '\u{1680}'
    ||| '\u{2000}' <= c <= '\u{200a}'
    ||| c == '\u{2028}'
    ||| c == '\u{2029}'
    ||| c == '\u{202f}'
    ||| c == '\u{205f}'
    ||| c == '\u{3000}'
}

/// Whether `c` has the Unicode property `White_Space`.
pub fn space(c: char) -> (res: bool)
    ensures
        res == is_space(c),
{
    ('\u{9}' <= c && c <= '\u{d}') || c == '\u{20}' || c == '\u{85}' || c == '\u{a0}' || c
        == '\u{1680}' || ('\u{2000}' <= c && c <= '\u{200a}') || c == '\u{2028}' || c == '\u{2029}'
        || c == '\u{202f}' || c == '\u{205f}' || c == '\u{3000}'
}

/// `s` without the white space at its start.
pub open spec fn trimmed_start(s: Seq<char>) -> Seq<char>
    decreases s.len(),
{
    if s.len() > 0 && is_space(s[0]) {
        trimmed_start(s.drop_first())
    } else {
        s
    }
}

/// `s` without the white space at its end.
pub open spec fn trimmed_end(s: Seq<char>) -> Seq<char>
    decreases s.len(),
{
    if s.len() > 0 && is_space(s.last()) {
        trimmed_end(s.drop_last())
    } else {
        s
    }
}

/// `s` without the white space around it.
pub open spec fn trimmed(s: Seq<char>) -> Seq<char> {
    trimmed_end(trimmed_start(s))
}

/// `s` without the white space around it.
pub fn trim(s: &str) -> (res: String)
    ensures
        res@ == trimmed(s@),
        exists|from: int, to: int|
            0 <= from <= to <= s@.len() && res@ == #[trigger] s@.subrange(from, to) && (forall|
                i: int,
            |
                0 <= i < s@.len() && !(from <= i < to) ==> is_space(#[trigger] s@[i])) && (from < to
                ==> !is_space(s@[from]) && !is_space(s@[to - 1])),
{
    let s = chars_of(s);
    let mut start: usize = 0;
    assert(s@.skip(0) =~= s@);
    while start < s.len() && space(s[start])
        invariant
            start <= s@.len(),
            trimmed_start(s@.skip(start as int)) == trimmed_start(s@),
            forall|i: int| 0 <= i < start ==> is_space(#[trigger] s@[i]),
        decreases s@.len() - start,
    {
        assert(s@.skip(start as int).drop_first() =~= s@.skip(start + 1));
        start += 1;
    }
    let ghost body = s@.skip(start as int);
    let mut end: usize = s.len();
    assert(s@.subrange(start as int, end as int) =~= body);
    while end > start && space(s[end - 1])
        invariant
            start <= end <= s@.len(),
            trimmed_end(s@.subrange(start as int, end as int)) == trimmed_end(body),
            forall|i: int| end <= i < s@.len() ==> is_space(#[trigger] s@[i]),
            start < s@.len() ==> !is_space(s@[start as int]),
            forall|i: int| 0 <= i < start ==> is_space(#[trigger] s@[i]),
        decreases end,
    {
        assert(s@.subrange(start as int, end as int).drop_last() =~= s@.subrange(
            start as int,
            end - 1,
        ));
        end -= 1;
    }
    slice_text(&s, start, end)
}

// ---------------------------------------------------------------------------
// Letter case
// ---------------------------------------------------------------------------

/// `c` in lower case, where it is an ASCII letter.
pub open spec fn ascii_lower(c: char) -> char {
    if 'A' <= c <= 'Z' {
        (c as u32 + 32) as char
    } else {
        c
    }
}

/// What `str::to_lowercase` makes of a text.
pub uninterp spec fn lowercase(s: Seq<char>) -> Seq<char>;

/// `str::to_lowercase`. A text of ASCII characters alone comes back with its
/// letters `A` to `Z` turned into `a` to `z`; of other texts only that the
/// result is a function of the text is claimed.
#[verifier::external_body]
pub(crate) fn to_lowercase(s: &str) -> (res: String)
    ensures
        res@ == lowercase(s@),
        (forall|i: int| 0 <= i < s@.len() ==> (#[trigger] s@[i]) as u32 <= 127) ==> res@
            == s@.map_values(|c: char| ascii_lower(c)),
{
    s.to_lowercase()
}

// ---------------------------------------------------------------------------
// Numbers
// ---------------------------------------------------------------------------

/// The decimal digit for `d`.
pub open spec fn digit(d: nat) -> char {
    (48 + d) as char
}

/// `n` in decimal, without leading zeros.
pub open spec fn decimal(n: nat) -> Seq<char>
    decreases n,
{
    if n < 10 {
        seq![digit(n)]
    } else {
        decimal(n / 10).push(digit(n % 10))
    }
}

/// `n` in decimal, with a minus sign where it is negative.
pub open spec fn signed_decimal(n: int) -> Seq<char> {
    if n < 0 {
        seq!['-'] + decimal((-n) as nat)
    } else {
        decimal(n as nat)
    }
}

/// Appends `n` in decimal.
pub fn push_decimal(out: &mut String, n: u64)
    ensures
        final(out)@ == old(out)@ + decimal(n as nat),
    decreases n,
{
    if n >= 10 {
        push_decimal(out, n / 10);
    }
    let d: u8 = (n % 10) as u8;
    out.push((48 + d) as char);
    assert(out@ =~= old(out)@ + decimal(n as nat));
}

/// `n` in decimal.
pub fn decimal_text(n: u64) -> (res: String)
    ensures
        res@ == decimal(n as nat),
{
    let mut res = String::new();
    push_decimal(&mut res, n);
    assert(res@ =~= decimal(n as nat));
    res
}

/// `n` in decimal, with its sign.
pub fn signed_decimal_text(n: i64) -> (res: String)
    ensures
        res@ == signed_decimal(n as int),
{
    let mut res = String::new();
    if n < 0 {
        let m: u64 = (-(n as i128)) as u64;
        res.push('-');
        push_decimal(&mut res, m);
        assert(res@ =~= signed_decimal(n as int));
    } else {
        push_decimal(&mut res, n as u64);
        assert(res@ =~= signed_decimal(n as int));
    }
    res
}

/// The lower-case hexadecimal digit for `d`.
pub open spec fn hex_digit(d: nat) -> char {
    if d < 10 {
        (48 + d) as char
    } else {
        (87 + d) as char
    }
}

/// The last `width` hexadecimal digits of `n`.
pub open spec fn hex_fixed(n: nat, width: nat) -> Seq<char>
    decreases width,
{
    if width == 0 {
        Seq::empty()
    } else {
        hex_fixed(n / 16, (width - 1) as nat).push(hex_digit(n % 16))
    }
}

/// Appends the last `width` hexadecimal digits of `n`.
pub fn push_hex(out: &mut String, n: u64, width: usize)
    ensures
        final(out)@ == old(out)@ + hex_fixed(n as nat, width as nat),
    decreases width,
{
    if width == 0 {
        assert(out@ =~= old(out)@ + hex_fixed(n as nat, 0));
        return ;
    }
    push_hex(out, n / 16, width - 1);
    let d: u8 = (n % 16) as u8;
    if d < 10 {
        out.push((48 + d) as char);
    } else {
        out.push((87 + d) as char);
    }
    assert(out@ =~= old(out)@ + hex_fixed(n as nat, width as nat));
}

/// A lower-case hexadecimal digit.
pub open spec fn is_hex(c: char) -> bool {
    '0' <= c <= '9' || 'a' <= c <= 'f'
}

/// A number in hexadecimal is as wide as it is told to be.
pub proof fn lemma_hex_fixed(n: nat, width: nat)
    ensures
        hex_fixed(n, width).len() == width,
        forall|i: int| 0 <= i < width ==> is_hex(#[trigger] hex_fixed(n, width)[i]),
    decreases width,
{
    if width > 0 {
        lemma_hex_fixed(n / 16, (width - 1) as nat);
        let rest = hex_fixed(n / 16, (width - 1) as nat);
        assert forall|i: int| 0 <= i < width implies is_hex(
            #[trigger] hex_fixed(n, width)[i],
        ) by {
            if i < rest.len() {
                assert(is_hex(rest[i]));
            }
        }
    }
}

/// How many numbers `width` hexadecimal digits can tell apart.
pub open spec fn sixteen_to(width: nat) -> nat
    decreases width,
{
    if width == 0 {
        1
    } else {
        16 * sixteen_to((width - 1) as nat)
    }
}

/// Different numbers have different digits, where there are enough of them.
pub proof fn lemma_hex_tells_apart(a: nat, b: nat, width: nat)
    requires
        a < sixteen_to(width),
        b < sixteen_to(width),
        a != b,
    ensures
        hex_fixed(a, width) != hex_fixed(b, width),
    decreases width,
{
    if width > 0 {
        let less = (width - 1) as nat;
        let x = hex_fixed(a, width);
        let y = hex_fixed(b, width);
        assert(a / 16 < sixteen_to(less) && b / 16 < sixteen_to(less)) by (nonlinear_arith)
            requires
                a < 16 * sixteen_to(less),
                b < 16 * sixteen_to(less),
        ;
        if a / 16 != b / 16 {
            lemma_hex_tells_apart(a / 16, b / 16, less);
            lemma_hex_fixed(a / 16, less);
            lemma_hex_fixed(b / 16, less);
            if x == y {
                assert(x.drop_last() =~= hex_fixed(a / 16, less));
                assert(y.drop_last() =~= hex_fixed(b / 16, less));
            }
        } else {
            assert(a % 16 != b % 16);
            assert(hex_digit(a % 16) != hex_digit(b % 16));
            assert(x.last() == hex_digit(a % 16) && y.last() == hex_digit(b % 16));
        }
    }
}

/// `s` with spaces before it up to `width` characters.
pub open spec fn right_aligned(s: Seq<char>, width: nat) -> Seq<char> {
    if s.len() < width {
        Seq::new((width - s.len()) as nat, |i: int| ' ') + s
    } else {
        s
    }
}

/// `s` with spaces before it up to `width` characters.
pub fn right_align(s: &str, width: usize) -> (res: String)
    ensures
        res@ == right_aligned(s@, width as nat),
        s@.len() >= width ==> res@ == s@,
        s@.len() < width ==> res@.len() == width && res@.skip(width - s@.len()) == s@ && forall|
            i: int,
        |
            0 <= i < width - s@.len() ==> res@[i] == ' ',
{
    let len: usize = s.unicode_len();
    let mut res = String::new();
    let fill: usize = if len < width {
        width - len
    } else {
        0
    };
    for i in 0..fill
        invariant
            res@ == Seq::new(i as nat, |j: int| ' '),
    {
        res.push(' ');
        assert(res@ =~= Seq::new((i + 1) as nat, |j: int| ' '));
    }
    res.append(s);
    assert(res@ =~= right_aligned(s@, width as nat));
    assert(len < width ==> res@.skip(width - len) =~= s@);
    res
}

// ---------------------------------------------------------------------------
// Order
// ---------------------------------------------------------------------------

/// `a` stands before `b` in the order of their characters' code points.
pub open spec fn comes_before(a: Seq<char>, b: Seq<char>) -> bool
    decreases a.len(),
{
    if b.len() == 0 {
        false
    } else if a.len() == 0 {
        true
    } else if a[0] == b[0] {
        comes_before(a.drop_first(), b.drop_first())
    } else {
        a[0] < b[0]
    }
}

/// Whether `a` stands before `b` in the order of their code points.
pub fn text_before(a: &str, b: &str) -> (res: bool)
    ensures
        res == comes_before(a@, b@),
{
    let left = chars_of(a);
    let right = chars_of(b);
    let mut i: usize = 0;
    assert(a@.skip(0) =~= a@);
    assert(b@.skip(0) =~= b@);
    while i < left.len() && i < right.len()
        invariant
            left@ == a@,
            right@ == b@,
            i <= a@.len(),
            i <= b@.len(),
            comes_before(a@, b@) == comes_before(a@.skip(i as int), b@.skip(i as int)),
        decreases a@.len() - i,
    {
        if left[i] != right[i] {
            return left[i] < right[i];
        }
        assert(a@.skip(i as int).drop_first() =~= a@.skip(i + 1));
        assert(b@.skip(i as int).drop_first() =~= b@.skip(i + 1));
        i += 1;
    }
    i < right.len()
}

/// No text stands before itself.
pub proof fn lemma_order_irreflexive(a: Seq<char>)
    ensures
        !comes_before(a, a),
    decreases a.len(),
{
    if a.len() > 0 {
        lemma_order_irreflexive(a.drop_first());
    }
}

/// The order of texts is transitive.
pub proof fn lemma_order_transitive(a: Seq<char>, b: Seq<char>, c: Seq<char>)
    requires
        comes_before(a, b),
        comes_before(b, c),
    ensures
        comes_before(a, c),
    decreases a.len(),
{
    if a.len() > 0 && a[0] == b[0] && b[0] == c[0] {
        lemma_order_transitive(a.drop_first(), b.drop_first(), c.drop_first());
    }
}

/// Of two texts one stands before the other, or they are the same.
pub proof fn lemma_order_total(a: Seq<char>, b: Seq<char>)
    ensures
        comes_before(a, b) || comes_before(b, a) || a == b,
    decreases a.len(),
{
    if a.len() > 0 && b.len() > 0 && a[0] == b[0] {
        lemma_order_total(a.drop_first(), b.drop_first());
        if a.drop_first() == b.drop_first() {
            assert(a =~= seq![a[0]] + a.drop_first());
            assert(b =~= seq![b[0]] + b.drop_first());
        }
    } else if a.len() == 0 && b.len() == 0 {
        assert(a =~= b);
    }
}

// ---------------------------------------------------------------------------
// Laws of texts
// ---------------------------------------------------------------------------

/// Parts joined: the first, the separator, and the others joined.
proof fn lemma_joined_front(parts: Seq<Seq<char>>, sep: Seq<char>)
    requires
        parts.len() >= 2,
    ensures
        joined(parts, sep) == parts[0] + sep + joined(parts.drop_first(), sep),
    decreases parts.len(),
{
    let front = parts.drop_last();
    let rest = parts.drop_first();
    if parts.len() == 2 {
        assert(front.len() == 1 && rest.len() == 1);
        assert(joined(front, sep) == parts[0]);
        assert(joined(rest, sep) == parts[1]);
    } else {
        lemma_joined_front(front, sep);
        assert(front.drop_first() =~= rest.drop_last());
        assert(rest.last() == parts.last());
        assert(front[0] == parts[0]);
        assert(joined(parts, sep) =~= parts[0] + sep + joined(rest, sep));
    }
}

/// Splitting loses nothing and leaves no separator: the pieces, joined by the
/// character that they were split at, are the text again, and none of them holds
/// it.
pub proof fn lemma_pieces_make_up_the_text(s: Seq<char>, c: char)
    ensures
        split_on(s, c).len() > 0,
        joined(split_on(s, c), seq![c]) == s,
        forall|i: int| 0 <= i < split_on(s, c).len() ==> !(#[trigger] split_on(s, c)[i]).contains(c),
    decreases s.len(),
{
    lemma_first_index_of(s, c);
    let i = first_index_of(s, c);
    let all = split_on(s, c);
    if i < s.len() {
        let rest = split_on(s.skip(i + 1), c);
        lemma_pieces_make_up_the_text(s.skip(i + 1), c);
        lemma_joined_front(all, seq![c]);
        assert(all.drop_first() =~= rest);
        assert(s =~= s.take(i) + seq![c] + s.skip(i + 1));
        assert forall|k: int| 0 <= k < all.len() implies !(#[trigger] all[k]).contains(c) by {
            if k > 0 {
                assert(all[k] == rest[k - 1]);
            }
        }
    }
}

/// What the lines of a text are: a line ends with a line feed, or with a carriage
/// return and a line feed, neither of which belongs to it; what follows the last
/// of them is a line where it is not empty.
pub proof fn lemma_lines_end_with_line_feeds(line: Seq<char>, rest: Seq<char>)
    requires
        !line.contains('\n'),
    ensures
        lines_of(Seq::empty()) == Seq::<Seq<char>>::empty(),
        line.len() > 0 ==> lines_of(line) == seq![line],
        line.len() == 0 || line.last() != '\r' ==> lines_of(line + seq!['\n'] + rest) == seq![line]
            + lines_of(rest),
        lines_of(line + seq!['\r', '\n'] + rest) == seq![line] + lines_of(rest),
{
    let n = line.len() as int;
    assert forall|j: int| 0 <= j < n implies line[j] != '\n' by {
        if line[j] == '\n' {
            assert(line.contains('\n'));
        }
    }
    lemma_first_index_is(line, '\n', n);
    let one = line + seq!['\n'] + rest;
    lemma_first_index_is(one, '\n', n);
    assert(one.take(n) =~= line);
    assert(one.skip(n + 1) =~= rest);
    let two = line + seq!['\r', '\n'] + rest;
    lemma_first_index_is(two, '\n', n + 1);
    assert(two.take(n + 1) =~= line.push('\r'));
    assert(line.push('\r').drop_last() =~= line);
    assert(two.skip(n + 2) =~= rest);
}

/// The number that decimal digits stand for.
pub open spec fn number_of(digits: Seq<char>) -> int
    decreases digits.len(),
{
    if digits.len() == 0 {
        0
    } else {
        10 * number_of(digits.drop_last()) + (digits.last() as u32 - '0' as u32)
    }
}

/// A number in decimal is read back as the number: it is made of digits, does not
/// begin with a zero unless it is one, and stands for the number; a minus sign
/// stands before a negative one.
pub proof fn lemma_decimal_is_read_back(n: nat)
    ensures
        number_of(decimal(n)) == n,
        decimal(n).len() > 0,
        forall|i: int| 0 <= i < decimal(n).len() ==> '0' <= #[trigger] decimal(n)[i] <= '9',
        n > 0 ==> decimal(n)[0] != '0',
        signed_decimal(n as int) == decimal(n),
        n > 0 ==> signed_decimal(-(n as int)) == seq!['-'] + decimal(n),
    decreases n,
{
    let all = decimal(n);
    if n < 10 {
        assert(all.drop_last() =~= Seq::<char>::empty());
        assert(number_of(all.drop_last()) == 0);
    } else {
        lemma_decimal_is_read_back(n / 10);
        assert(all.drop_last() =~= decimal(n / 10));
        assert forall|i: int| 0 <= i < all.len() implies '0' <= #[trigger] all[i] <= '9' by {
            if i < all.len() - 1 {
                assert(all[i] == decimal(n / 10)[i]);
            }
        }
        assert(all[0] == decimal(n / 10)[0]);
    }
}

/// The number that lower-case hexadecimal digits stand for.
pub open spec fn hex_number_of(digits: Seq<char>) -> int
    decreases digits.len(),
{
    if digits.len() == 0 {
        0
    } else {
        16 * hex_number_of(digits.drop_last()) + if digits.last() <= '9' {
            digits.last() as u32 - '0' as u32
        } else {
            digits.last() as u32 - 'a' as u32 + 10
        }
    }
}

/// A number in hexadecimal is read back as the number, where there are enough
/// digits.
pub proof fn lemma_hex_is_read_back(n: nat, width: nat)
    requires
        n < sixteen_to(width),
    ensures
        hex_number_of(hex_fixed(n, width)) == n,
    decreases width,
{
    if width > 0 {
        let less = (width - 1) as nat;
        assert(n / 16 < sixteen_to(less)) by (nonlinear_arith)
            requires
                n < 16 * sixteen_to(less),
        ;
        lemma_hex_is_read_back(n / 16, less);
        assert(hex_fixed(n, width).drop_last() =~= hex_fixed(n / 16, less));
    }
}

/// The order of texts is that of the first character in which they differ, and a
/// text stands before every longer one that begins with it.
pub proof fn lemma_first_difference_decides(a: Seq<char>, b: Seq<char>, n: int)
    requires
        0 <= n <= a.len(),
        n < b.len(),
        a.take(n) == b.take(n),
        a.len() == n || a[n] != b[n],
    ensures
        comes_before(a, b) <==> a.len() == n || a[n] < b[n],
    decreases n,
{
    if n > 0 {
        assert(a.take(n)[0] == a[0] && b.take(n)[0] == b[0]);
        let x = a.drop_first();
        let y = b.drop_first();
        assert(x.take(n - 1) =~= a.take(n).drop_first());
        assert(y.take(n - 1) =~= b.take(n).drop_first());
        lemma_first_difference_decides(x, y, n - 1);
    }
}

/// White space is what Unicode calls so.
pub proof fn lemma_white_space(c: char)
    ensures
        is_space(c) <==> ({
            let n = c as u32;
            ||| 9 <= n <= 13
            ||| n == 32
            ||| n == 133
            ||| n == 160
            ||| n == 5760
            ||| 8192 <= n <= 8202
            ||| n == 8232
            ||| n == 8233
            ||| n == 8239
            ||| n == 8287
            ||| n == 12288
        }),
{
}

} // verus!

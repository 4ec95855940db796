//! Unix paths as texts.
//!
//! A path is read by its components: repeated separators, a separator at the
//! end and `.` in the middle make no difference, `..` is kept as it is.

use vstd::prelude::*;

use crate::text::{
    chars_of, first_index_of, join, joined, lemma_first_index_is, lemma_first_index_of, slice_text,
    split, split_on, texts,
};

verus! {

// ---------------------------------------------------------------------------
// Components
// ---------------------------------------------------------------------------

/// A piece between separators that is a component.
pub open spec fn is_component(p: Seq<char>) -> bool {
    p.len() > 0 && p != "."@
}

/// The components among the pieces between separators.
pub open spec fn named(pieces: Seq<Seq<char>>) -> Seq<Seq<char>>
    decreases pieces.len(),
{
    if pieces.len() == 0 {
        pieces
    } else {
        let rest = named(pieces.drop_last());
        if is_component(pieces.last()) {
            rest.push(pieces.last())
        } else {
            rest
        }
    }
}

/// The path begins at the root.
pub open spec fn is_absolute(p: Seq<char>) -> bool {
    p.len() > 0 && p[0] == '/'
}

/// What a path begins with, beside its named components: the root, or a `.`.
pub open spec fn start_of(p: Seq<char>) -> Seq<Seq<char>> {
    if is_absolute(p) {
        seq!["/"@]
    } else if split_on(p, '/')[0] == "."@ {
        seq!["."@]
    } else {
        Seq::empty()
    }
}

/// The components of a path.
pub open spec fn components_of(p: Seq<char>) -> Seq<Seq<char>> {
    start_of(p) + named(split_on(p, '/'))
}

/// The path with the given components.
pub open spec fn assembled(c: Seq<Seq<char>>) -> Seq<char> {
    if c.len() > 0 && c[0] == "/"@ {
        "/"@ + joined(c.skip(1), "/"@)
    } else {
        joined(c, "/"@)
    }
}

/// The shortest text of a path: what is the same for equal paths.
pub open spec fn normal(p: Seq<char>) -> Seq<char> {
    assembled(components_of(p))
}

/// Whether a path begins at the root.
pub fn absolute(p: &str) -> (res: bool)
    ensures
        res == is_absolute(p@),
{
    p.unicode_len() > 0 && p.get_char(0) == '/'
}

/// The components of a path.
pub fn components(p: &str) -> (res: Vec<String>)
    ensures
        texts(res@) == components_of(p@),
{
    let pieces = split(p, '/');
    let ghost all = split_on(p@, '/');
    let mut out: Vec<String> = Vec::new();
    proof {
        lemma_split_is_not_empty(p@);
    }
    if absolute(p) {
        out.push("/".to_owned());
        assert(texts(out@) =~= seq!["/"@]);
    } else {
        assert(all[0] == pieces@[0]@);
        if *pieces[0].as_str() == *"." {
            out.push(".".to_owned());
            assert(texts(out@) =~= seq!["."@]);
        } else {
            assert(texts(out@) =~= Seq::<Seq<char>>::empty());
        }
    }
    let ghost start = start_of(p@);
    let mut i: usize = 0;
    assert(all.take(0) =~= Seq::<Seq<char>>::empty());
    assert(start + named(all.take(0)) =~= start);
    while i < pieces.len()
        invariant
            i <= pieces@.len(),
            all == texts(pieces@),
            texts(out@) == start + named(all.take(i as int)),
        decreases pieces@.len() - i,
    {
        assert(all.take(i + 1).drop_last() =~= all.take(i as int));
        assert(all[i as int] == pieces@[i as int]@);
        let ghost before = out@;
        if !pieces[i].as_str().is_empty() && *pieces[i].as_str() != *"." {
            out.push(pieces[i].clone());
            assert(texts(out@) =~= texts(before).push(all[i as int]));
            assert(texts(out@) =~= start + named(all.take(i + 1)));
        }
        i += 1;
    }
    assert(all.take(i as int) =~= all);
    out
}

/// A text has at least one piece.
proof fn lemma_split_is_not_empty(p: Seq<char>)
    ensures
        split_on(p, '/').len() > 0,
{
}

/// The shortest text of a path.
pub fn normalized(p: &str) -> (res: String)
    ensures
        res@ == normal(p@),
{
    assemble(&components(p))
}

/// The path with the given components.
fn assemble(c: &Vec<String>) -> (res: String)
    ensures
        res@ == assembled(texts(c@)),
{
    let ghost all = texts(c@);
    if c.len() > 0 && *c[0].as_str() == *"/" {
        assert(all[0] == "/"@);
        let mut rest: Vec<String> = Vec::new();
        let mut i: usize = 1;
        assert(texts(rest@) =~= all.subrange(1, 1));
        while i < c.len()
            invariant
                1 <= i <= c@.len(),
                all == texts(c@),
                texts(rest@) == all.subrange(1, i as int),
            decreases c@.len() - i,
        {
            let ghost before = rest@;
            rest.push(c[i].clone());
            assert(texts(rest@) =~= texts(before).push(all[i as int]));
            assert(all.subrange(1, i + 1) =~= all.subrange(1, i as int).push(all[i as int]));
            i += 1;
        }
        assert(all.subrange(1, i as int) =~= all.skip(1));
        let mut res = "/".to_owned();
        res.append(join(rest.as_slice(), "/").as_str());
        res
    } else {
        proof {
            if all.len() > 0 {
                assert(all[0] == c@[0]@);
            }
        }
        join(c.as_slice(), "/")
    }
}

/// What follows `base` in `path`, where the components of `path` begin with
/// those of `base`.
pub open spec fn below(path: Seq<char>, base: Seq<char>) -> Option<Seq<char>> {
    let c = components_of(path);
    let b = components_of(base);
    if b.len() <= c.len() && c.take(b.len() as int) == b {
        Some(assembled(c.skip(b.len() as int)))
    } else {
        None
    }
}

/// What follows `base` in `path`.
pub fn strip_prefix(path: &str, base: &str) -> (res: Option<String>)
    ensures
        crate::text::opt_text(res) == below(path@, base@),
        res is Some <==> components_of(base@).len() <= components_of(path@).len() && components_of(
            path@,
        ).take(components_of(base@).len() as int) == components_of(base@),
{
    let c = components(path);
    let b = components(base);
    let ghost cs = components_of(path@);
    let ghost bs = components_of(base@);
    if b.len() > c.len() {
        assert(bs.len() > cs.len());
        return None;
    }
    let mut i: usize = 0;
    while i < b.len()
        invariant
            i <= b@.len() <= c@.len(),
            cs == texts(c@),
            bs == texts(b@),
            cs == components_of(path@),
            bs == components_of(base@),
            forall|k: int| 0 <= k < i ==> #[trigger] cs[k] == bs[k],
        decreases b@.len() - i,
    {
        assert(cs[i as int] == c@[i as int]@ && bs[i as int] == b@[i as int]@);
        if *c[i].as_str() != *b[i].as_str() {
            assert(cs.take(bs.len() as int)[i as int] != bs[i as int]);
            return None;
        }
        i += 1;
    }
    assert(cs.take(bs.len() as int) =~= bs);
    let mut rest: Vec<String> = Vec::new();
    let ghost from: int = bs.len() as int;
    assert(texts(rest@) =~= cs.subrange(from, i as int));
    while i < c.len()
        invariant
            0 <= from <= i <= c@.len(),
            cs == texts(c@),
            texts(rest@) == cs.subrange(from, i as int),
        decreases c@.len() - i,
    {
        let ghost before = rest@;
        rest.push(c[i].clone());
        assert(texts(rest@) =~= texts(before).push(cs[i as int]));
        assert(cs.subrange(from, i + 1) =~= cs.subrange(from, i as int).push(cs[i as int]));
        i += 1;
    }
    assert(cs.subrange(from, i as int) =~= cs.skip(from));
    Some(assemble(&rest))
}

// ---------------------------------------------------------------------------
// Joining
// ---------------------------------------------------------------------------

/// `name` taken relative to `base`: an absolute name stands for itself.
pub open spec fn joined_path(base: Seq<char>, name: Seq<char>) -> Seq<char> {
    if is_absolute(name) {
        name
    } else if base.len() == 0 || base.last() == '/' {
        base + name
    } else {
        base + "/"@ + name
    }
}

/// `name` taken relative to `base`.
pub fn join_path(base: &str, name: &str) -> (res: String)
    ensures
        res@ == joined_path(base@, name@),
        name@.len() > 0 && name@[0] == '/' ==> res@ == name@,
        !(name@.len() > 0 && name@[0] == '/') ==> {
            &&& base@.len() == 0 ==> res@ == name@
            &&& base@.len() > 0 && base@.last() == '/' ==> res@ == base@ + name@
            &&& base@.len() > 0 && base@.last() != '/' ==> res@ == base@ + seq!['/'] + name@
        },
{
    if absolute(name) {
        return name.to_owned();
    }
    let mut res = base.to_owned();
    let n: usize = base.unicode_len();
    if n > 0 && base.get_char(n - 1) != '/' {
        res.append("/");
    }
    res.append(name);
    proof {
        reveal_strlit("/");
        assert("/"@ =~= seq!['/']);
        assert(n == 0 ==> res@ =~= name@);
    }
    res
}

// ---------------------------------------------------------------------------
// The last component
// ---------------------------------------------------------------------------

/// The path without the separators and `.`s at its end.
pub open spec fn without_tail(p: Seq<char>) -> Seq<char>
    decreases p.len(),
{
    if p.len() > 0 && p.last() == '/' {
        without_tail(p.drop_last())
    } else if p.len() > 1 && p.last() == '.' && p[p.len() - 2] == '/' {
        without_tail(p.drop_last())
    } else {
        p
    }
}

/// Where the last component begins: behind the last separator.
pub open spec fn name_start(p: Seq<char>) -> int
    decreases p.len(),
{
    if p.len() == 0 || p.last() == '/' {
        p.len() as int
    } else {
        name_start(p.drop_last())
    }
}

/// The last component, where it is a name.
pub open spec fn file_name_of(p: Seq<char>) -> Option<Seq<char>> {
    let t = without_tail(p);
    let name = t.skip(name_start(t));
    if t.len() == 0 || name == "."@ || name == ".."@ {
        None
    } else {
        Some(name)
    }
}

/// The path without its last component; none for the root and for nothing.
pub open spec fn parent_of(p: Seq<char>) -> Option<Seq<char>> {
    let t = without_tail(p);
    if t.len() == 0 {
        None
    } else {
        let rest = without_tail(t.take(name_start(t)));
        if rest.len() == 0 && is_absolute(p) {
            Some("/"@)
        } else {
            Some(rest)
        }
    }
}

/// How long the path is without the separators and `.`s at its end.
fn tail_start(p: &Vec<char>, from: usize) -> (res: usize)
    requires
        from <= p@.len(),
    ensures
        res <= from,
        p@.take(res as int) == without_tail(p@.take(from as int)),
{
    let mut n: usize = from;
    while n > 0 && (p[n - 1] == '/' || n > 1 && p[n - 1] == '.' && p[n - 2] == '/')
        invariant
            n <= from <= p@.len(),
            without_tail(p@.take(n as int)) == without_tail(p@.take(from as int)),
        decreases n,
    {
        assert(p@.take(n as int).drop_last() =~= p@.take(n - 1));
        n -= 1;
    }
    n
}

/// Where the last component of the first `n` characters begins.
fn last_name(p: &Vec<char>, n: usize) -> (res: usize)
    requires
        n <= p@.len(),
    ensures
        res <= n,
        res == name_start(p@.take(n as int)),
{
    let mut i: usize = n;
    while i > 0 && p[i - 1] != '/'
        invariant
            i <= n <= p@.len(),
            name_start(p@.take(i as int)) == name_start(p@.take(n as int)),
        decreases i,
    {
        assert(p@.take(i as int).drop_last() =~= p@.take(i - 1));
        i -= 1;
    }
    i
}

/// The last component, where it is a name.
pub fn file_name(p: &str) -> (res: Option<String>)
    ensures
        crate::text::opt_text(res) == file_name_of(p@),
{
    let text = chars_of(p);
    assert(text@.take(text@.len() as int) =~= text@);
    let n = tail_start(&text, text.len());
    if n == 0 {
        return None;
    }
    let i = last_name(&text, n);
    let name = slice_text(&text, i, n);
    assert(name@ =~= text@.take(n as int).skip(i as int));
    if *name.as_str() == *"." || *name.as_str() == *".." {
        return None;
    }
    Some(name)
}

/// The path without its last component; none for the root and for nothing.
pub fn parent(p: &str) -> (res: Option<String>)
    ensures
        crate::text::opt_text(res) == parent_of(p@),
{
    let text = chars_of(p);
    assert(text@.take(text@.len() as int) =~= text@);
    let n = tail_start(&text, text.len());
    if n == 0 {
        return None;
    }
    let i = last_name(&text, n);
    assert(text@.take(n as int).take(i as int) =~= text@.take(i as int));
    let m = tail_start(&text, i);
    if m == 0 && absolute(p) {
        return Some("/".to_owned());
    }
    let rest = slice_text(&text, 0, m);
    assert(rest@ =~= text@.take(m as int));
    Some(rest)
}

/// Where the last `.` of a name stands; 0 where there is none or only a first
/// one.
pub open spec fn last_dot(name: Seq<char>) -> int
    decreases name.len(),
{
    if name.len() == 0 {
        0
    } else if name.last() == '.' {
        name.len() - 1
    } else {
        last_dot(name.drop_last())
    }
}

/// How long the name is without its extension.
pub open spec fn stem_len(name: Seq<char>) -> int {
    if last_dot(name) == 0 {
        name.len() as int
    } else {
        last_dot(name)
    }
}

/// The path with `extension` in place of that of its last component.
pub open spec fn extended(p: Seq<char>, extension: Seq<char>) -> Seq<char> {
    let t = without_tail(p);
    match file_name_of(p) {
        Some(name) => t.take(name_start(t) + stem_len(name)) + "."@ + extension,
        None => p,
    }
}

/// The path with `extension` in place of that of its last component.
pub fn with_extension(p: &str, extension: &str) -> (res: String)
    requires
        extension@.len() > 0,
    ensures
        res@ == extended(p@, extension@),
{
    let text = chars_of(p);
    assert(text@.take(text@.len() as int) =~= text@);
    let n = tail_start(&text, text.len());
    let name = match file_name(p) {
        Some(name) => name,
        None => {
            return p.to_owned();
        },
    };
    let i = last_name(&text, n);
    let ghost t = text@.take(n as int);
    assert(name@ == t.skip(i as int));
    let mut dot: usize = n;
    assert(t.skip(i as int) =~= text@.subrange(i as int, dot as int));
    while dot > i && text[dot - 1] != '.'
        invariant
            i <= dot <= n <= text@.len(),
            last_dot(text@.subrange(i as int, dot as int)) == last_dot(name@),
        decreases dot,
    {
        assert(text@.subrange(i as int, dot as int).drop_last() =~= text@.subrange(
            i as int,
            dot - 1,
        ));
        dot -= 1;
    }
    let end: usize = if dot - i > 1 {
        assert(last_dot(name@) == dot - 1 - i);
        dot - 1
    } else {
        assert(last_dot(name@) == 0);
        n
    };
    let mut res = slice_text(&text, 0, end);
    assert(res@ =~= t.take(i + stem_len(name@)));
    res.append(".");
    res.append(extension);
    res
}

// ---------------------------------------------------------------------------
// Laws of paths
// ---------------------------------------------------------------------------

/// No separator stands in `p`.
pub open spec fn is_single(p: Seq<char>) -> bool {
    forall|i: int| 0 <= i < p.len() ==> p[i] != '/'
}

/// No separator stands in any of the pieces.
pub open spec fn are_single(pieces: Seq<Seq<char>>) -> bool {
    forall|i: int| 0 <= i < pieces.len() ==> is_single(#[trigger] pieces[i])
}

/// A separator splits a text into the pieces before it and those behind it.
proof fn lemma_split_concat(a: Seq<char>, b: Seq<char>)
    ensures
        split_on(a.push('/') + b, '/') == split_on(a, '/') + split_on(b, '/'),
    decreases a.len(),
{
    let s = a.push('/') + b;
    lemma_first_index_of(a, '/');
    let i = first_index_of(a, '/');
    if i < a.len() {
        assert(s[i] == a[i]);
        assert forall|j: int| 0 <= j < i implies s[j] != '/' by {
            assert(s[j] == a[j]);
        }
        lemma_first_index_is(s, '/', i);
        assert(s.take(i) =~= a.take(i));
        assert(s.skip(i + 1) =~= a.skip(i + 1).push('/') + b);
        lemma_split_concat(a.skip(i + 1), b);
        assert(split_on(s, '/') =~= split_on(a, '/') + split_on(b, '/'));
    } else {
        assert forall|j: int| 0 <= j < a.len() implies s[j] != '/' by {
            assert(s[j] == a[j]);
        }
        assert(s[a.len() as int] == '/');
        lemma_first_index_is(s, '/', a.len() as int);
        assert(s.take(a.len() as int) =~= a);
        assert(s.skip(a.len() as int + 1) =~= b);
        assert(split_on(a, '/') =~= seq![a]);
    }
}

/// The components of pieces one after the other.
proof fn lemma_named_concat(a: Seq<Seq<char>>, b: Seq<Seq<char>>)
    ensures
        named(a + b) == named(a) + named(b),
    decreases b.len(),
{
    if b.len() == 0 {
        assert(a + b =~= a);
        assert(named(a) + named(b) =~= named(a));
    } else {
        assert((a + b).drop_last() =~= a + b.drop_last());
        lemma_named_concat(a, b.drop_last());
        assert((a + b).last() == b.last());
        assert(named(a + b) =~= named(a) + named(b));
    }
}

/// The components of the empty text.
proof fn lemma_nothing_is_named()
    ensures
        split_on(Seq::empty(), '/') == seq![Seq::<char>::empty()],
        named(seq![Seq::<char>::empty()]) == Seq::<Seq<char>>::empty(),
{
    lemma_first_index_is(Seq::empty(), '/', 0);
    let e = seq![Seq::<char>::empty()];
    assert(e.drop_last() =~= Seq::<Seq<char>>::empty());
    assert(!is_component(e.last()));
    assert(named(e) == named(e.drop_last()));
    assert(named(e.drop_last()) =~= Seq::<Seq<char>>::empty());
}

/// A `.` is not named.
proof fn lemma_dot_is_not_named()
    ensures
        named(seq!["."@]) == Seq::<Seq<char>>::empty(),
{
    let e = seq!["."@];
    assert(e.drop_last() =~= Seq::<Seq<char>>::empty());
    assert(!is_component(e.last()));
    assert(named(e) == named(e.drop_last()));
    assert(named(e.drop_last()) =~= Seq::<Seq<char>>::empty());
}

/// Joining a relative path to another adds its components.
pub proof fn lemma_join_adds_components(base: Seq<char>, name: Seq<char>)
    requires
        base.len() > 0,
        !is_absolute(name),
    ensures
        components_of(joined_path(base, name)) == components_of(base) + named(
            split_on(name, '/'),
        ),
{
    reveal_strlit("/");
    let s = joined_path(base, name);
    lemma_nothing_is_named();
    assert(s[0] == base[0]);
    if base.last() == '/' {
        let a = base.drop_last();
        assert(base =~= a.push('/') + Seq::<char>::empty());
        assert(s =~= a.push('/') + name);
        lemma_split_concat(a, name);
        lemma_split_concat(a, Seq::empty());
        lemma_named_concat(split_on(a, '/'), split_on(name, '/'));
        lemma_named_concat(split_on(a, '/'), seq![Seq::<char>::empty()]);
        assert(named(split_on(base, '/')) =~= named(split_on(a, '/')));
        lemma_split_is_not_empty(a);
        assert(split_on(s, '/')[0] == split_on(base, '/')[0]);
    } else {
        assert(s =~= base.push('/') + name);
        lemma_split_concat(base, name);
        lemma_named_concat(split_on(base, '/'), split_on(name, '/'));
        lemma_split_is_not_empty(base);
        assert(split_on(s, '/')[0] == split_on(base, '/')[0]);
    }
    assert(components_of(s) =~= components_of(base) + named(split_on(name, '/')));
}

/// The pieces between separators hold none.
proof fn lemma_split_is_single(p: Seq<char>)
    ensures
        are_single(split_on(p, '/')),
    decreases p.len(),
{
    lemma_first_index_of(p, '/');
    let i = first_index_of(p, '/');
    let all = split_on(p, '/');
    if i < p.len() {
        lemma_split_is_single(p.skip(i + 1));
        let rest = split_on(p.skip(i + 1), '/');
        assert forall|k: int| 0 <= k < all.len() implies is_single(#[trigger] all[k]) by {
            if k == 0 {
                assert(all[0] == p.take(i));
            } else {
                assert(all[k] == rest[k - 1]);
            }
        }
    } else {
        assert(all =~= seq![p]);
    }
}

/// What is named among pieces is a component without separators.
proof fn lemma_named_is_single(pieces: Seq<Seq<char>>)
    requires
        are_single(pieces),
    ensures
        are_single(named(pieces)),
        forall|i: int| 0 <= i < named(pieces).len() ==> is_component(#[trigger] named(pieces)[i]),
    decreases pieces.len(),
{
    if pieces.len() > 0 {
        let front = pieces.drop_last();
        assert forall|i: int| 0 <= i < front.len() implies is_single(#[trigger] front[i]) by {
            assert(front[i] == pieces[i]);
        }
        lemma_named_is_single(front);
        let all = named(pieces);
        let rest = named(front);
        assert(pieces[pieces.len() - 1] == pieces.last());
        assert forall|i: int| 0 <= i < all.len() implies is_single(#[trigger] all[i])
            && is_component(all[i]) by {
            if i < rest.len() {
                assert(all[i] == rest[i]);
            }
        }
    }
}

/// Components are named as they are.
proof fn lemma_components_are_named(c: Seq<Seq<char>>)
    requires
        forall|i: int| 0 <= i < c.len() ==> is_component(#[trigger] c[i]),
    ensures
        named(c) == c,
    decreases c.len(),
{
    if c.len() > 0 {
        let front = c.drop_last();
        assert forall|i: int| 0 <= i < front.len() implies is_component(#[trigger] front[i]) by {
            assert(front[i] == c[i]);
        }
        lemma_components_are_named(front);
        assert(is_component(c[c.len() - 1]));
        assert(front.push(c.last()) =~= c);
    }
}

/// Joining components with separators and splitting them again.
proof fn lemma_split_joined(c: Seq<Seq<char>>)
    requires
        are_single(c),
        c.len() > 0,
    ensures
        split_on(joined(c, "/"@), '/') == c,
    decreases c.len(),
{
    reveal_strlit("/");
    let s = joined(c, "/"@);
    if c.len() == 1 {
        assert(is_single(c[0]));
        lemma_first_index_is(c[0], '/', c[0].len() as int);
        assert(split_on(s, '/') =~= c);
    } else {
        let front = c.drop_last();
        assert forall|i: int| 0 <= i < front.len() implies is_single(#[trigger] front[i]) by {
            assert(front[i] == c[i]);
        }
        lemma_split_joined(front);
        let head = joined(front, "/"@);
        assert(s =~= head.push('/') + c.last());
        lemma_split_concat(head, c.last());
        assert(is_single(c[c.len() - 1]));
        lemma_first_index_is(c.last(), '/', c.last().len() as int);
        assert(split_on(c.last(), '/') =~= seq![c.last()]);
        assert(front + seq![c.last()] =~= c);
    }
}

/// Moving a path from below `base` to below `other` keeps the components that
/// follow.
pub proof fn lemma_moved_path_keeps_components(
    path: Seq<char>,
    base: Seq<char>,
    other: Seq<char>,
)
    requires
        components_of(base).len() > 0,
        below(path, base) is Some,
        other.len() > 0,
    ensures
        components_of(joined_path(other, below(path, base)->0)) == components_of(other)
            + components_of(path).skip(components_of(base).len() as int),
{
    reveal_strlit("/");
    let c = components_of(path);
    let n = components_of(base).len() as int;
    let rest = c.skip(n);
    let tail = named(split_on(path, '/'));
    lemma_split_is_single(path);
    lemma_named_is_single(split_on(path, '/'));
    assert forall|i: int| 0 <= i < rest.len() implies is_single(#[trigger] rest[i]) && is_component(
        rest[i],
    ) by {
        assert(rest[i] == tail[n + i - start_of(path).len()]);
    }
    let name = below(path, base)->0;
    if rest.len() == 0 {
        lemma_nothing_is_named();
        assert(name =~= Seq::<char>::empty());
        lemma_join_adds_components(other, name);
        assert(named(split_on(name, '/')) =~= rest);
    } else {
        assert(is_single(rest[0]));
        if rest[0] == "/"@ {
            assert(rest[0][0] == '/');
        }
        assert(name == joined(rest, "/"@));
        lemma_joined_starts_with(rest);
        lemma_join_adds_components(other, name);
        lemma_split_joined(rest);
        lemma_components_are_named(rest);
    }
}

/// A joined text begins with its first part.
proof fn lemma_joined_starts_with(c: Seq<Seq<char>>)
    requires
        c.len() > 0,
        c[0].len() > 0,
    ensures
        joined(c, "/"@).len() > 0,
        joined(c, "/"@)[0] == c[0][0],
    decreases c.len(),
{
    if c.len() > 1 {
        assert(c.drop_last()[0] == c[0]);
        lemma_joined_starts_with(c.drop_last());
    }
}

/// Joining a name to a path adds one component.
pub proof fn lemma_join_adds_name(base: Seq<char>, name: Seq<char>)
    requires
        base.len() > 0,
        is_single(name),
        is_component(name),
    ensures
        components_of(joined_path(base, name)) == components_of(base).push(name),
{
    assert(!is_absolute(name));
    lemma_join_adds_components(base, name);
    lemma_first_index_is(name, '/', name.len() as int);
    assert(split_on(name, '/') =~= seq![name]);
    assert forall|i: int| 0 <= i < seq![name].len() implies is_component(
        #[trigger] seq![name][i],
    ) by {}
    lemma_components_are_named(seq![name]);
    assert(components_of(base) + seq![name] =~= components_of(base).push(name));
}

/// Behind the last separator there is none.
proof fn lemma_name_start(p: Seq<char>)
    ensures
        0 <= name_start(p) <= p.len(),
        is_single(p.skip(name_start(p))),
    decreases p.len(),
{
    if p.len() > 0 && p.last() != '/' {
        let front = p.drop_last();
        lemma_name_start(front);
        let i = name_start(front);
        let name = p.skip(i);
        assert forall|k: int| 0 <= k < name.len() implies name[k] != '/' by {
            if k < front.len() - i {
                assert(name[k] == front.skip(i)[k]);
            } else {
                assert(name[k] == p.last());
            }
        }
    }
}

/// The last component of a path holds no separator.
pub proof fn lemma_file_name_is_single(p: Seq<char>)
    requires
        file_name_of(p) is Some,
    ensures
        is_single(file_name_of(p)->0),
{
    lemma_name_start(without_tail(p));
}

/// Where a name begins that stands behind a separator, or alone.
proof fn lemma_name_start_is(q: Seq<char>, name: Seq<char>)
    requires
        is_single(name),
        q.len() == 0 || q.last() == '/',
    ensures
        name_start(q + name) == q.len(),
    decreases name.len(),
{
    let p = q + name;
    if name.len() == 0 {
        assert(p =~= q);
    } else {
        assert(p.last() == name[name.len() - 1]);
        assert(p.drop_last() =~= q + name.drop_last());
        lemma_name_start_is(q, name.drop_last());
    }
}

/// The last component of a path that a name was joined to is that name.
pub proof fn lemma_file_name_of_join(base: Seq<char>, name: Seq<char>)
    requires
        is_single(name),
        is_component(name),
        name != ".."@,
    ensures
        file_name_of(joined_path(base, name)) == Some(name),
{
    reveal_strlit("/");
    reveal_strlit(".");
    let p = joined_path(base, name);
    let q = if base.len() == 0 || base.last() == '/' {
        base
    } else {
        base + "/"@
    };
    assert(!is_absolute(name));
    assert(p =~= q + name);
    assert(p.last() == name[name.len() - 1]);
    if p.last() == '.' && p.len() > 1 && p[p.len() - 2] == '/' {
        if name.len() > 1 {
            assert(p[p.len() - 2] == name[name.len() - 2]);
        } else {
            assert(name =~= "."@);
        }
    }
    assert(without_tail(p) == p);
    lemma_name_start_is(q, name);
    assert(p.skip(q.len() as int) =~= name);
}

/// The shortest text of a path has the components of the path, so it is a path to
/// the same place, and its own shortest text.
pub proof fn lemma_shortest_text_keeps_components(p: Seq<char>)
    ensures
        components_of(normal(p)) == components_of(p),
        normal(normal(p)) == normal(p),
{
    reveal_strlit("/");
    reveal_strlit(".");
    let c = components_of(p);
    let start = start_of(p);
    let tail = named(split_on(p, '/'));
    let n = normal(p);
    lemma_split_is_single(p);
    lemma_named_is_single(split_on(p, '/'));
    lemma_nothing_is_named();
    lemma_components_are_named(tail);
    assert forall|i: int| 0 <= i < tail.len() implies tail[i] != "/"@ by {
        assert(is_single(tail[i]));
        if tail[i] == "/"@ {
            assert(tail[i][0] == '/');
        }
    }
    if is_absolute(p) {
        assert(c[0] == "/"@);
        assert(c.skip(1) =~= tail);
        let rest = joined(tail, "/"@);
        assert(n == "/"@ + rest);
        assert(n =~= Seq::<char>::empty().push('/') + rest);
        lemma_split_concat(Seq::empty(), rest);
        if tail.len() == 0 {
            assert(rest =~= Seq::<char>::empty());
        } else {
            lemma_split_joined(tail);
        }
        lemma_named_concat(seq![Seq::<char>::empty()], split_on(rest, '/'));
        assert(named(split_on(n, '/')) =~= tail);
        assert(components_of(n) =~= c);
    } else if split_on(p, '/')[0] == "."@ {
        assert(c[0] == "."@);
        assert("."@ != "/"@) by {
            assert("."@[0] != "/"@[0]);
        }
        assert(n == joined(c, "/"@));
        assert(are_single(c)) by {
            assert forall|i: int| 0 <= i < c.len() implies is_single(#[trigger] c[i]) by {
                if i > 0 {
                    assert(c[i] == tail[i - 1]);
                }
            }
        }
        lemma_split_joined(c);
        lemma_joined_starts_with(c);
        assert(n[0] == '.');
        lemma_named_concat(seq!["."@], tail);
        lemma_dot_is_not_named();
        assert(c =~= seq!["."@] + tail);
        assert(named(c) =~= tail);
        assert(components_of(n) =~= c);
    } else {
        assert(c =~= tail);
        if c.len() == 0 {
            assert(n =~= Seq::<char>::empty());
            assert(split_on(n, '/')[0] =~= Seq::<char>::empty());
            assert("."@.len() == 1);
            assert(components_of(n) =~= c);
        } else {
            assert(is_component(tail[0]));
            assert(n == joined(c, "/"@));
            lemma_split_joined(c);
            lemma_joined_starts_with(c);
            assert(is_single(c[0]));
            assert(components_of(n) =~= c);
        }
    }
}

/// What makes no difference to a path: another separator beside one, and a `.`
/// between two.
pub proof fn lemma_spelling_makes_no_difference(a: Seq<char>, b: Seq<char>)
    requires
        a.len() > 0,
    ensures
        normal(a + seq!['/', '/'] + b) == normal(a + seq!['/'] + b),
        normal(a + seq!['/', '.', '/'] + b) == normal(a + seq!['/'] + b),
        a[0] != '/' || a.len() > 1 ==> normal(a + seq!['/']) == normal(a),
{
    reveal_strlit(".");
    let one = a + seq!['/'] + b;
    let two = a + seq!['/', '/'] + b;
    let dot = a + seq!['/', '.', '/'] + b;
    let end = a + seq!['/'];
    let empty = Seq::<char>::empty();
    lemma_nothing_is_named();
    lemma_split_is_not_empty(a);
    assert(one =~= a.push('/') + b);
    lemma_split_concat(a, b);
    lemma_named_concat(split_on(a, '/'), split_on(b, '/'));
    assert(two =~= a.push('/') + (empty.push('/') + b));
    lemma_split_concat(a, empty.push('/') + b);
    lemma_split_concat(empty, b);
    lemma_named_concat(split_on(a, '/'), seq![empty] + split_on(b, '/'));
    lemma_named_concat(seq![empty], split_on(b, '/'));
    assert(named(split_on(two, '/')) =~= named(split_on(one, '/')));
    assert(start_of(two) =~= start_of(one)) by {
        assert(two[0] == a[0] && one[0] == a[0]);
        assert(split_on(two, '/')[0] == split_on(a, '/')[0]);
        assert(split_on(one, '/')[0] == split_on(a, '/')[0]);
    }
    let d = seq!['.'];
    assert(d =~= "."@);
    assert(dot =~= a.push('/') + (d.push('/') + b));
    lemma_split_concat(a, d.push('/') + b);
    lemma_split_concat(d, b);
    lemma_first_index_is(d, '/', 1);
    assert(split_on(d, '/') =~= seq![d]);
    lemma_dot_is_not_named();
    lemma_named_concat(split_on(a, '/'), seq![d] + split_on(b, '/'));
    lemma_named_concat(seq![d], split_on(b, '/'));
    assert(named(split_on(dot, '/')) =~= named(split_on(one, '/')));
    assert(start_of(dot) =~= start_of(one)) by {
        assert(dot[0] == a[0] && one[0] == a[0]);
        assert(split_on(dot, '/')[0] == split_on(a, '/')[0]);
        assert(split_on(one, '/')[0] == split_on(a, '/')[0]);
    }
    assert(end =~= a.push('/') + empty);
    lemma_split_concat(a, empty);
    lemma_named_concat(split_on(a, '/'), seq![empty]);
    assert(named(split_on(end, '/')) =~= named(split_on(a, '/')));
    assert(start_of(end) =~= start_of(a)) by {
        assert(end[0] == a[0]);
        assert(split_on(end, '/')[0] == split_on(a, '/')[0]);
    }
}

/// Separators and `.`s at the end make no difference, unless nothing is left: then
/// there was nothing, or the root.
proof fn lemma_tail_makes_no_difference(p: Seq<char>)
    ensures
        without_tail(p).len() <= p.len(),
        without_tail(p).len() > 0 ==> components_of(without_tail(p)) == components_of(p)
            && without_tail(p)[0] == p[0],
        without_tail(p).len() == 0 && p.len() > 0 ==> is_absolute(p) && components_of(p) == seq![
            "/"@,
        ],
    decreases p.len(),
{
    reveal_strlit(".");
    reveal_strlit("/");
    lemma_nothing_is_named();
    let empty = Seq::<char>::empty();
    if p.len() > 0 && p.last() == '/' {
        let a = p.drop_last();
        lemma_tail_makes_no_difference(a);
        assert(p =~= a.push('/') + empty);
        lemma_split_concat(a, empty);
        lemma_split_is_not_empty(a);
        lemma_named_concat(split_on(a, '/'), seq![empty]);
        assert(named(split_on(p, '/')) =~= named(split_on(a, '/')));
        if a.len() == 0 {
            assert(a =~= empty);
            assert(components_of(p) =~= seq!["/"@]);
        } else {
            assert(p[0] == a[0]);
            assert(split_on(p, '/')[0] == split_on(a, '/')[0]);
            assert(components_of(p) =~= components_of(a));
        }
    } else if p.len() > 1 && p.last() == '.' && p[p.len() - 2] == '/' {
        let a = p.drop_last();
        let b = a.drop_last();
        lemma_tail_makes_no_difference(a);
        let d = seq!['.'];
        assert(d =~= "."@);
        assert(p =~= b.push('/') + d);
        assert(a =~= b.push('/') + empty);
        lemma_split_concat(b, d);
        lemma_split_concat(b, empty);
        lemma_split_is_not_empty(b);
        lemma_first_index_is(d, '/', 1);
        assert(split_on(d, '/') =~= seq![d]);
        lemma_dot_is_not_named();
        lemma_named_concat(split_on(b, '/'), seq![d]);
        lemma_named_concat(split_on(b, '/'), seq![empty]);
        assert(named(split_on(p, '/')) =~= named(split_on(a, '/')));
        assert(p[0] == a[0]);
        assert(split_on(p, '/')[0] == split_on(b, '/')[0]);
        assert(split_on(a, '/')[0] == split_on(b, '/')[0]);
        assert(components_of(p) =~= components_of(a));
    }
}

/// The parent of a path that a name was joined to is the path it was joined to.
pub proof fn lemma_parent_of_join(base: Seq<char>, name: Seq<char>)
    requires
        base.len() > 0,
        is_single(name),
        is_component(name),
        name != ".."@,
    ensures
        parent_of(joined_path(base, name)) is Some,
        components_of(parent_of(joined_path(base, name))->0) == components_of(base),
{
    reveal_strlit("/");
    reveal_strlit(".");
    let p = joined_path(base, name);
    let q = if base.last() == '/' {
        base
    } else {
        base + "/"@
    };
    assert(!is_absolute(name));
    assert(p =~= q + name);
    assert(p.last() == name[name.len() - 1]);
    if p.last() == '.' && p.len() > 1 && p[p.len() - 2] == '/' {
        if name.len() > 1 {
            assert(p[p.len() - 2] == name[name.len() - 2]);
        } else {
            assert(name =~= "."@);
        }
    }
    assert(without_tail(p) == p);
    lemma_name_start_is(q, name);
    assert(p.take(q.len() as int) =~= q);
    if base.last() != '/' {
        assert(q.drop_last() =~= base);
        assert(without_tail(q) == without_tail(base));
    }
    lemma_tail_makes_no_difference(base);
    assert(p[0] == base[0]);
    if without_tail(base).len() == 0 {
        let root = seq!['/'];
        assert("/"@ =~= root);
        lemma_tail_makes_no_difference(root);
        assert(root.drop_last() =~= Seq::<char>::empty());
        assert(without_tail(root.drop_last()).len() == 0);
        assert(without_tail(root).len() == 0);
    }
}

/// Where the last dot stands, with none behind it.
proof fn lemma_last_dot_is(stem: Seq<char>, rest: Seq<char>)
    requires
        !rest.contains('.'),
    ensures
        last_dot(stem + seq!['.'] + rest) == stem.len(),
    decreases rest.len(),
{
    let name = stem + seq!['.'] + rest;
    if rest.len() > 0 {
        assert(name.last() == rest[rest.len() - 1]);
        assert(rest[rest.len() - 1] != '.');
        let less = rest.drop_last();
        assert forall|i: int| 0 <= i < less.len() implies less[i] != '.' by {
            assert(rest[i] != '.');
        }
        lemma_last_dot_is(stem, less);
        assert(name.drop_last() =~= stem + seq!['.'] + less);
    }
}

/// Another extension: what stands behind the last dot of the name is replaced, or
/// the extension is added where the name has none. The directory is the same.
pub proof fn lemma_extension_is_replaced(
    base: Seq<char>,
    stem: Seq<char>,
    old_extension: Seq<char>,
    extension: Seq<char>,
)
    requires
        base.len() > 0,
        stem.len() > 0,
        is_single(stem),
        is_single(old_extension),
        !old_extension.contains('.'),
        stem != "."@,
        old_extension.len() > 0,
    ensures
        extended(joined_path(base, stem + seq!['.'] + old_extension), extension) == joined_path(
            base,
            stem + seq!['.'] + extension,
        ),
        !stem.contains('.') ==> extended(joined_path(base, stem), extension) == joined_path(
            base,
            stem + seq!['.'] + extension,
        ),
{
    reveal_strlit("/");
    reveal_strlit(".");
    reveal_strlit("..");
    let name = stem + seq!['.'] + old_extension;
    assert("."@ =~= seq!['.']);
    let wanted = stem + seq!['.'] + extension;
    assert(name.len() >= 3);
    assert(name != "."@ && name != ".."@);
    lemma_last_dot_is(stem, old_extension);
    assert(stem_len(name) == stem.len());
    lemma_extension_at(base, name, extension, stem.len() as int);
    assert(name.take(stem.len() as int) =~= stem);
    assert(wanted[0] == stem[0]);
    if !stem.contains('.') {
        lemma_no_dot(stem);
        if stem == ".."@ {
            assert(stem[0] == '.');
        }
        lemma_extension_at(base, stem, extension, stem.len() as int);
        assert(stem.take(stem.len() as int) =~= stem);
    }
}

/// A name without a dot has no extension.
proof fn lemma_no_dot(name: Seq<char>)
    requires
        !name.contains('.'),
    ensures
        last_dot(name) == 0,
    decreases name.len(),
{
    if name.len() > 0 {
        assert(name[name.len() - 1] != '.');
        let less = name.drop_last();
        assert forall|i: int| 0 <= i < less.len() implies less[i] != '.' by {
            assert(name[i] != '.');
        }
        lemma_no_dot(less);
    }
}

/// The extension of a name behind a directory.
proof fn lemma_extension_at(base: Seq<char>, name: Seq<char>, extension: Seq<char>, n: int)
    requires
        base.len() > 0,
        is_single(name),
        is_component(name),
        name != ".."@,
        0 < n <= name.len(),
        stem_len(name) == n,
    ensures
        extended(joined_path(base, name), extension) == joined_path(
            base,
            name.take(n) + seq!['.'] + extension,
        ),
{
    reveal_strlit("/");
    reveal_strlit(".");
    let p = joined_path(base, name);
    let q = if base.last() == '/' {
        base
    } else {
        base + "/"@
    };
    assert("."@ =~= seq!['.']);
    assert(!is_absolute(name));
    assert(p =~= q + name);
    assert(p.last() == name[name.len() - 1]);
    if p.last() == '.' && p.len() > 1 && p[p.len() - 2] == '/' {
        if name.len() > 1 {
            assert(p[p.len() - 2] == name[name.len() - 2]);
        } else {
            assert(name =~= "."@);
        }
    }
    assert(without_tail(p) == p);
    lemma_name_start_is(q, name);
    lemma_file_name_of_join(base, name);
    let other = name.take(n) + seq!['.'] + extension;
    assert(other[0] == name[0]);
    assert(!is_absolute(other));
    assert(p.take(q.len() + n) =~= q + name.take(n));
    assert(extended(p, extension) =~= q + other);
    assert(joined_path(base, other) =~= q + other);
}

/// Every name counts but `.`: joined to a path it is one more component, `..` too,
/// which stands for itself and is no file name.
pub proof fn lemma_every_name_but_a_dot_counts(base: Seq<char>, name: Seq<char>)
    requires
        base.len() > 0,
        name.len() > 0,
        !name.contains('/'),
        name != seq!['.'],
    ensures
        components_of(joined_path(base, name)) == components_of(base).push(name),
        name == seq!['.', '.'] ==> file_name_of(joined_path(base, name)) is None,
        name != seq!['.', '.'] ==> file_name_of(joined_path(base, name)) == Some(name),
{
    reveal_strlit(".");
    reveal_strlit("..");
    reveal_strlit("/");
    assert("."@ =~= seq!['.']);
    assert(".."@ =~= seq!['.', '.']);
    assert forall|i: int| 0 <= i < name.len() implies name[i] != '/' by {
        assert(name.contains(name[i]));
    }
    lemma_join_adds_name(base, name);
    if name != ".."@ {
        lemma_file_name_of_join(base, name);
    } else {
        let p = joined_path(base, name);
        let q = if base.last() == '/' {
            base
        } else {
            base + "/"@
        };
        assert(p =~= q + name);
        assert(p.last() == '.' && p[p.len() - 2] == '.');
        assert(without_tail(p) == p);
        lemma_name_start_is(q, name);
        assert(p.skip(q.len() as int) =~= name);
    }
}

/// Where a path begins makes a difference: at the root, at a `.`, or with a name.
pub proof fn lemma_start_of_a_path_counts(rest: Seq<char>)
    ensures
        components_of(seq!['/'] + rest).len() > 0,
        components_of(seq!['/'] + rest)[0] == seq!['/'],
        components_of(seq!['.', '/'] + rest).len() > 0,
        components_of(seq!['.', '/'] + rest)[0] == seq!['.'],
        components_of(Seq::empty()) == Seq::<Seq<char>>::empty(),
{
    reveal_strlit(".");
    reveal_strlit("/");
    assert("."@ =~= seq!['.']);
    assert("/"@ =~= seq!['/']);
    let dot = seq!['.', '/'] + rest;
    lemma_first_index_is(dot, '/', 1);
    assert(dot.take(1) =~= seq!['.']);
    assert(split_on(dot, '/')[0] == seq!['.']);
    lemma_nothing_is_named();
    let empty = Seq::<char>::empty();
    assert(split_on(empty, '/')[0] =~= empty);
    assert(components_of(empty) =~= Seq::<Seq<char>>::empty());
}

/// A name that begins with its only dot has no extension: another is added to it.
pub proof fn lemma_hidden_name_has_no_extension(
    base: Seq<char>,
    rest: Seq<char>,
    extension: Seq<char>,
)
    requires
        base.len() > 0,
        rest.len() > 0,
        is_single(rest),
        !rest.contains('.'),
    ensures
        extended(joined_path(base, seq!['.'] + rest), extension) == joined_path(
            base,
            seq!['.'] + rest + seq!['.'] + extension,
        ),
{
    reveal_strlit(".");
    reveal_strlit("..");
    let name = seq!['.'] + rest;
    assert(Seq::<char>::empty() + seq!['.'] + rest =~= name);
    lemma_last_dot_is(Seq::empty(), rest);
    assert(stem_len(name) == name.len());
    assert(name[1] == rest[0]);
    assert(rest.contains(rest[0]));
    if name == ".."@ {
        assert(name[1] == '.');
    }
    assert(name.len() > 1);
    lemma_extension_at(base, name, extension, name.len() as int);
    assert(name.take(name.len() as int) =~= name);
    assert(name + seq!['.'] + extension =~= seq!['.'] + rest + seq!['.'] + extension);
}

} // verus!

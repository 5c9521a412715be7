use vstd::prelude::*;

verus! {

/// Copies the characters of a string slice into a vector.
pub fn chars_of(s: &str) -> (v: Vec<char>)
    ensures
        v@ == s@,
{
    let mut v: Vec<char> = Vec::new();
    for c in it: s.chars()
        invariant
            v@ == it.seq().take(it.index() as int),
            it.seq() == s@,
    {
        v.push(c);
    }
    v
}

/// `String::push` appends one character at the end of the string.
pub assume_specification[ String::push ](s: &mut String, ch: char)
    ensures
        final(s)@ == old(s)@.push(ch),
;

/// Builds a string from a sequence of characters.
pub fn string_of(v: &Vec<char>) -> (s: String)
    ensures
        s@ == v@,
{
    let mut s = String::new();
    let mut i: usize = 0;
    while i < v.len()
        invariant
            i <= v.len(),
            s@ == v@.take(i as int),
        decreases v.len() - i,
    {
        s.push(v[i]);
        i += 1;
        assert(v@.take(i as int) =~= v@.take((i - 1) as int).push(v@[i - 1]));
    }
    assert(v@.take(v.len() as int) =~= v@);
    s
}


/// The Unicode `White_Space` property, which `char::is_whitespace` tests.
pub open spec fn is_white_space(c: char) -> bool {
    let n = c as u32;
    ||| 0x9 <= n <= 0xd
    ||| n == 0x20
    ||| n == 0x85
    ||| n == 0xa0
    ||| n == 0x1680
    ||| 0x2000 <= n <= 0x200a
    ||| n == 0x2028
    ||| n == 0x2029
    ||| n == 0x202f
    ||| n == 0x205f
    ||| n == 0x3000
}

/// Tests whether a character is white space in the Unicode sense.
pub fn is_whitespace_char(c: char) -> (b: bool)
    ensures
        b == is_white_space(c),
{
    let n = c as u32;
    (0x9 <= n && n <= 0xd) || n == 0x20 || n == 0x85 || n == 0xa0 || n == 0x1680 || (0x2000
        <= n && n <= 0x200a) || n == 0x2028 || n == 0x2029 || n == 0x202f || n == 0x205f || n
        == 0x3000
}

/// What `str::trim_start` leaves of a string.
pub open spec fn trim_start_spec(s: Seq<char>) -> Seq<char>
    decreases s.len(),
{
    if s.len() > 0 && is_white_space(s[0]) {
        trim_start_spec(s.drop_first())
    } else {
        s
    }
}

/// What `str::trim_end` leaves of a string.
pub open spec fn trim_end_spec(s: Seq<char>) -> Seq<char>
    decreases s.len(),
{
    if s.len() > 0 && is_white_space(s.last()) {
        trim_end_spec(s.drop_last())
    } else {
        s
    }
}

/// What `str::trim` leaves of a string: no white space at either end.
pub open spec fn trim_spec(s: Seq<char>) -> Seq<char> {
    trim_end_spec(trim_start_spec(s))
}

proof fn lemma_trim_start_skip(s: Seq<char>, i: int)
    requires
        0 <= i <= s.len(),
        forall|k: int| 0 <= k < i ==> is_white_space(#[trigger] s[k]),
    ensures
        trim_start_spec(s) == trim_start_spec(s.subrange(i, s.len() as int)),
    decreases i,
{
    if i > 0 {
        lemma_trim_start_skip(s, i - 1);
        let t = s.subrange(i - 1, s.len() as int);
        assert(t.drop_first() =~= s.subrange(i, s.len() as int));
        assert(t[0] == s[i - 1]);
    } else {
        assert(s.subrange(0, s.len() as int) =~= s);
    }
}

proof fn lemma_trim_end_skip(s: Seq<char>, j: int)
    requires
        0 <= j <= s.len(),
        forall|k: int| j <= k < s.len() ==> is_white_space(#[trigger] s[k]),
    ensures
        trim_end_spec(s) == trim_end_spec(s.subrange(0, j)),
    decreases s.len() - j,
{
    if j < s.len() {
        lemma_trim_end_skip(s, j + 1);
        let t = s.subrange(0, j + 1);
        assert(t.drop_last() =~= s.subrange(0, j));
        assert(t.last() == s[j]);
    } else {
        assert(s.subrange(0, s.len() as int) =~= s);
    }
}

/// Removes white space at both ends, as `str::trim` does.
pub fn trim(s: &Vec<char>) -> (r: Vec<char>)
    ensures
        r@ == trim_spec(s@),
{
    let n = s.len();
    let mut i: usize = 0;
    while i < n && is_whitespace_char(s[i])
        invariant
            n == s.len(),
            i <= n,
            forall|k: int| 0 <= k < i ==> is_white_space(#[trigger] s@[k]),
        decreases n - i,
    {
        i += 1;
    }
    proof {
        lemma_trim_start_skip(s@, i as int);
    }
    let ghost t = s@.subrange(i as int, n as int);
    assert(trim_start_spec(t) == t);
    let mut j: usize = n;
    while j > i && is_whitespace_char(s[j - 1])
        invariant
            n == s.len(),
            i <= j <= n,
            forall|k: int| j <= k < n ==> is_white_space(#[trigger] s@[k]),
        decreases j,
    {
        j -= 1;
    }
    proof {
        assert forall|k: int| j - i <= k < t.len() implies is_white_space(#[trigger] t[k]) by {
            assert(t[k] == s@[k + i]);
        }
        lemma_trim_end_skip(t, j - i);
        let u = t.subrange(0, j - i);
        assert(u =~= s@.subrange(i as int, j as int));
        if u.len() > 0 {
            assert(u.last() == s@[j - 1]);
        }
    }
    let mut r: Vec<char> = Vec::new();
    let mut k: usize = i;
    while k < j
        invariant
            n == s.len(),
            i <= k <= j <= n,
            r@ == s@.subrange(i as int, k as int),
        decreases j - k,
    {
        r.push(s[k]);
        k += 1;
        assert(r@ =~= s@.subrange(i as int, k as int));
    }
    r
}

/// Lower-cases an ASCII letter and leaves any other character unchanged.
pub open spec fn ascii_lower_char(c: char) -> char {
    if 'A' <= c <= 'Z' {
        ((c as u32) + 32) as char
    } else {
        c
    }
}

/// What `str::to_ascii_lowercase` makes of a string.
pub open spec fn ascii_lower(s: Seq<char>) -> Seq<char> {
    s.map_values(|c: char| ascii_lower_char(c))
}

/// Lower-cases the ASCII letters of a string.
pub fn to_ascii_lowercase(s: &Vec<char>) -> (r: Vec<char>)
    ensures
        r@ == ascii_lower(s@),
{
    let mut r: Vec<char> = Vec::new();
    let mut i: usize = 0;
    while i < s.len()
        invariant
            i <= s.len(),
            r@ == ascii_lower(s@.take(i as int)),
        decreases s.len() - i,
    {
        let c = s[i];
        let l = if 'A' <= c && c <= 'Z' {
            char_from_u32(c as u32 + 32)
        } else {
            c
        };
        r.push(l);
        i += 1;
        assert(r@ =~= ascii_lower(s@.take(i as int)));
    }
    assert(s@.take(s.len() as int) =~= s@);
    r
}

/// The character with an ASCII code point.
fn char_from_u32(n: u32) -> (c: char)
    requires
        n < 128,
    ensures
        c == n as char,
{
    let b = n as u8;
    b as char
}

/// Tests whether `p` is a prefix of `s`.
pub open spec fn starts_with_spec(s: Seq<char>, p: Seq<char>) -> bool {
    p.len() <= s.len() && s.subrange(0, p.len() as int) == p
}

/// Tests whether `p` is a prefix of `s`.
pub fn starts_with(s: &Vec<char>, p: &Vec<char>) -> (b: bool)
    ensures
        b == starts_with_spec(s@, p@),
{
    if p.len() > s.len() {
        return false;
    }
    let mut i: usize = 0;
    while i < p.len()
        invariant
            p.len() <= s.len(),
            i <= p.len(),
            forall|k: int| 0 <= k < i ==> s@[k] == p@[k],
        decreases p.len() - i,
    {
        if s[i] != p[i] {
            assert(s@.subrange(0, p.len() as int)[i as int] != p@[i as int]);
            return false;
        }
        i += 1;
    }
    assert(s@.subrange(0, p.len() as int) =~= p@);
    true
}

/// Tests whether a character occurs in a string.
pub fn contains_char(s: &Vec<char>, c: char) -> (b: bool)
    ensures
        b == s@.contains(c),
{
    let mut i: usize = 0;
    while i < s.len()
        invariant
            i <= s.len(),
            forall|k: int| 0 <= k < i ==> s@[k] != c,
        decreases s.len() - i,
    {
        if s[i] == c {
            assert(s@[i as int] == c);
            return true;
        }
        i += 1;
    }
    false
}

/// The views of a sequence of character vectors.
pub open spec fn views(v: Seq<Vec<char>>) -> Seq<Seq<char>> {
    v.map_values(|p: Vec<char>| p@)
}

/// The pieces that `str::split` with a one-character separator yields, in order;
/// the empty string yields one empty piece.
pub open spec fn split_spec(s: Seq<char>, sep: char) -> Seq<Seq<char>>
    decreases s.len(),
{
    if s.len() == 0 {
        seq![Seq::<char>::empty()]
    } else {
        let rest = split_spec(s.drop_last(), sep);
        if s.last() == sep {
            rest.push(Seq::<char>::empty())
        } else {
            rest.update(rest.len() - 1, rest.last().push(s.last()))
        }
    }
}

/// `split_spec` always yields at least one piece.
pub proof fn lemma_split_nonempty(s: Seq<char>, sep: char)
    ensures
        split_spec(s, sep).len() >= 1,
    decreases s.len(),
{
    if s.len() > 0 {
        lemma_split_nonempty(s.drop_last(), sep);
    }
}

/// Splits a string at every occurrence of a separator character.
pub fn split(s: &Vec<char>, sep: char) -> (r: Vec<Vec<char>>)
    ensures
        views(r@) == split_spec(s@, sep),
{
    let mut done: Vec<Vec<char>> = Vec::new();
    let mut cur: Vec<char> = Vec::new();
    let mut i: usize = 0;
    while i < s.len()
        invariant
            i <= s.len(),
            views(done@).push(cur@) == split_spec(s@.take(i as int), sep),
        decreases s.len() - i,
    {
        let c = s[i];
        proof {
            assert(s@.take(i + 1).drop_last() =~= s@.take(i as int));
            assert(s@.take(i + 1).last() == c);
        }
        if c == sep {
            let piece = cur;
            done.push(piece);
            cur = Vec::new();
            assert(views(done@).push(cur@) =~= split_spec(s@.take(i + 1), sep));
        } else {
            cur.push(c);
            assert(views(done@).push(cur@) =~= split_spec(s@.take(i + 1), sep));
        }
        i += 1;
    }
    done.push(cur);
    assert(s@.take(s.len() as int) =~= s@);
    assert(views(done@) =~= split_spec(s@, sep));
    done
}


/// The pieces of a string separated by runs of white space, with no empty
/// piece, in order: what `str::split_whitespace` yields.
pub open spec fn words_spec(s: Seq<char>) -> Seq<Seq<char>>
    decreases s.len(),
{
    if s.len() == 0 {
        Seq::empty()
    } else {
        let w = words_spec(s.drop_last());
        let c = s.last();
        if is_white_space(c) {
            w
        } else if s.len() >= 2 && !is_white_space(s[s.len() - 2]) {
            w.update(w.len() - 1, w.last().push(c))
        } else {
            w.push(seq![c])
        }
    }
}

proof fn lemma_words_last(s: Seq<char>)
    requires
        s.len() > 0,
        !is_white_space(s.last()),
    ensures
        words_spec(s).len() > 0,
    decreases s.len(),
{
    if s.len() >= 2 && !is_white_space(s[s.len() - 2]) {
        assert(s.drop_last().last() == s[s.len() - 2]);
        lemma_words_last(s.drop_last());
    }
}

/// The pieces joined with a separator between neighbours: what `join` yields.
pub open spec fn join_spec(pieces: Seq<Seq<char>>, sep: Seq<char>) -> Seq<char>
    decreases pieces.len(),
{
    if pieces.len() == 0 {
        Seq::empty()
    } else if pieces.len() == 1 {
        pieces[0]
    } else {
        join_spec(pieces.drop_last(), sep) + sep + pieces.last()
    }
}

proof fn lemma_join_extend_last(pieces: Seq<Seq<char>>, sep: Seq<char>, c: char)
    requires
        pieces.len() > 0,
    ensures
        join_spec(pieces.update(pieces.len() - 1, pieces.last().push(c)), sep) == join_spec(
            pieces,
            sep,
        ).push(c),
{
    let q = pieces.update(pieces.len() - 1, pieces.last().push(c));
    if pieces.len() == 1 {
        assert(q[0] == pieces[0].push(c));
    } else {
        assert(q.drop_last() =~= pieces.drop_last());
        assert(join_spec(q, sep) =~= join_spec(pieces, sep).push(c));
    }
}

/// The words of a string joined by single spaces: `split_whitespace` then
/// `join(" ")`.
pub open spec fn normalize_spec(s: Seq<char>) -> Seq<char> {
    join_spec(words_spec(s), seq![' '])
}

/// Collapses every run of white space to one space and drops white space at
/// both ends.
pub fn normalize_whitespace(s: &Vec<char>) -> (r: Vec<char>)
    ensures
        r@ == normalize_spec(s@),
{
    let mut r: Vec<char> = Vec::new();
    let mut i: usize = 0;
    let mut in_word = false;
    while i < s.len()
        invariant
            i <= s.len(),
            r@ == normalize_spec(s@.take(i as int)),
            in_word == (i > 0 && !is_white_space(s@[i - 1])),
            r@.len() == 0 <==> words_spec(s@.take(i as int)).len() == 0,
        decreases s.len() - i,
    {
        let c = s[i];
        let ghost pre = s@.take(i as int);
        let ghost post = s@.take(i + 1);
        proof {
            assert(post.drop_last() =~= pre);
            assert(post.last() == c);
        }
        if is_whitespace_char(c) {
            in_word = false;
        } else if in_word {
            proof {
                assert(post[post.len() - 2] == s@[i - 1]);
                lemma_words_last(pre);
                assert(pre.last() == s@[i - 1]);
                lemma_join_extend_last(words_spec(pre), seq![' '], c);
            }
            r.push(c);
        } else {
            proof {
                if i > 0 {
                    assert(post[post.len() - 2] == s@[i - 1]);
                }
            }
            if r.len() > 0 {
                r.push(' ');
            }
            r.push(c);
            proof {
                let w = words_spec(pre);
                assert(words_spec(post) == w.push(seq![c]));
                assert(w.push(seq![c]).drop_last() =~= w);
                if w.len() == 0 {
                    assert(r@ =~= seq![c]);
                } else {
                    assert(r@ =~= join_spec(w, seq![' ']) + seq![' '] + seq![c]);
                }
            }
            in_word = true;
        }
        i += 1;
    }
    assert(s@.take(s.len() as int) =~= s@);
    r
}

/// A word: not empty, without white space.
pub open spec fn is_word(w: Seq<char>) -> bool {
    w.len() > 0 && forall|k: int| 0 <= k < w.len() ==> !is_white_space(#[trigger] w[k])
}

/// White space stands only as single spaces between other characters.
pub open spec fn spaced_clean(n: Seq<char>) -> bool {
    forall|i: int|
        0 <= i < n.len() && is_white_space(#[trigger] n[i]) ==> n[i] == ' ' && 0 < i < n.len() - 1
            && !is_white_space(n[i - 1]) && !is_white_space(n[i + 1])
}

proof fn lemma_words_are_words(s: Seq<char>)
    ensures
        forall|j: int| 0 <= j < words_spec(s).len() ==> is_word(#[trigger] words_spec(s)[j]),
    decreases s.len(),
{
    if s.len() > 0 {
        let t = s.drop_last();
        lemma_words_are_words(t);
        let w = words_spec(t);
        let c = s.last();
        if !is_white_space(c) {
            if s.len() >= 2 && !is_white_space(s[s.len() - 2]) {
                assert(t.last() == s[s.len() - 2]);
                lemma_words_last(t);
                let v = w.update(w.len() - 1, w.last().push(c));
                assert forall|j: int| 0 <= j < v.len() implies is_word(#[trigger] v[j]) by {
                    if j < w.len() - 1 {
                        assert(v[j] == w[j]);
                    } else {
                        let x = w.last().push(c);
                        assert(is_word(w[w.len() - 1]));
                        assert forall|k: int| 0 <= k < x.len() implies !is_white_space(#[trigger] x[k]) by {
                            if k < w.last().len() {
                                assert(x[k] == w[w.len() - 1][k]);
                            }
                        }
                    }
                }
            } else {
                let v = w.push(seq![c]);
                assert forall|j: int| 0 <= j < v.len() implies is_word(#[trigger] v[j]) by {
                    if j < w.len() {
                        assert(v[j] == w[j]);
                    } else {
                        assert(v[j] == seq![c]);
                    }
                }
            }
        }
    }
}

proof fn lemma_join_words_clean(ws: Seq<Seq<char>>)
    requires
        forall|j: int| 0 <= j < ws.len() ==> is_word(#[trigger] ws[j]),
    ensures
        spaced_clean(join_spec(ws, seq![' '])),
        ws.len() > 0 ==> join_spec(ws, seq![' ']).len() > 0 && !is_white_space(join_spec(ws, seq![' '])[0])
            && !is_white_space(join_spec(ws, seq![' ']).last()),
    decreases ws.len(),
{
    let n = join_spec(ws, seq![' ']);
    if ws.len() == 1 {
        assert(is_word(ws[0]));
        assert(n == ws[0]);
    } else if ws.len() > 1 {
        let p = ws.drop_last();
        assert forall|j: int| 0 <= j < p.len() implies is_word(#[trigger] p[j]) by {
            assert(p[j] == ws[j]);
        }
        lemma_join_words_clean(p);
        let a = join_spec(p, seq![' ']);
        let l = ws.last();
        assert(is_word(ws[ws.len() - 1]));
        assert(n == a + seq![' '] + l);
        assert(n[0] == a[0]);
        assert(n.last() == l.last());
        assert forall|i: int| 0 <= i < n.len() && is_white_space(#[trigger] n[i]) implies n[i] == ' ' && 0 < i < n.len() - 1
            && !is_white_space(n[i - 1]) && !is_white_space(n[i + 1]) by {
            if i < a.len() {
                assert(n[i] == a[i]);
                if i + 1 < a.len() {
                    assert(n[i + 1] == a[i + 1]);
                }
                if i > 0 {
                    assert(n[i - 1] == a[i - 1]);
                }
                if i == a.len() - 1 {
                    assert(a[i] == a.last());
                }
            } else if i == a.len() {
                assert(n[i - 1] == a.last());
                assert(n[i + 1] == l[0]);
            } else {
                assert(n[i] == l[i - a.len() - 1]);
            }
        }
    }
}

/// Law: a normalized cell has no white space at either end, and inside it
/// only single spaces, each between two other characters.
pub proof fn lemma_normalized_clean(s: Seq<char>)
    ensures
        spaced_clean(normalize_spec(s)),
        normalize_spec(s).len() > 0 ==> !is_white_space(normalize_spec(s)[0]) && !is_white_space(
            normalize_spec(s).last(),
        ),
{
    lemma_words_are_words(s);
    lemma_join_words_clean(words_spec(s));
}

proof fn lemma_words_append_word(x: Seq<char>, l: Seq<char>)
    requires
        is_word(l),
        x.len() == 0 || is_white_space(x.last()),
    ensures
        words_spec(x + l) == words_spec(x).push(l),
    decreases l.len(),
{
    let s = x + l;
    let c = l.last();
    assert(c == l[l.len() - 1]);
    assert(s.last() == c);
    if l.len() == 1 {
        assert(s.drop_last() =~= x);
        if s.len() >= 2 {
            assert(s[s.len() - 2] == x.last());
        }
        assert(l =~= seq![c]);
    } else {
        let d = l.drop_last();
        assert forall|k: int| 0 <= k < d.len() implies !is_white_space(#[trigger] d[k]) by {
            assert(d[k] == l[k]);
        }
        lemma_words_append_word(x, d);
        assert(s.drop_last() =~= x + d);
        assert(s[s.len() - 2] == l[l.len() - 2]);
        let w = words_spec(x + d);
        assert(w.last() == d);
        assert(d.push(c) =~= l);
        assert(w.update(w.len() - 1, d.push(c)) =~= words_spec(x).push(l));
    }
}

proof fn lemma_words_of_join(ws: Seq<Seq<char>>)
    requires
        forall|j: int| 0 <= j < ws.len() ==> is_word(#[trigger] ws[j]),
    ensures
        words_spec(join_spec(ws, seq![' '])) == ws,
    decreases ws.len(),
{
    if ws.len() == 0 {
        assert(words_spec(Seq::<char>::empty()) =~= ws);
    } else if ws.len() == 1 {
        assert(is_word(ws[0]));
        lemma_words_append_word(Seq::<char>::empty(), ws[0]);
        assert(Seq::<char>::empty() + ws[0] =~= ws[0]);
        assert(words_spec(Seq::<char>::empty()).push(ws[0]) =~= ws);
    } else {
        let p = ws.drop_last();
        assert forall|j: int| 0 <= j < p.len() implies is_word(#[trigger] p[j]) by {
            assert(p[j] == ws[j]);
        }
        lemma_words_of_join(p);
        let a = join_spec(p, seq![' ']);
        let x = a + seq![' '];
        assert(x.drop_last() =~= a);
        assert(words_spec(x) == words_spec(a));
        assert(is_word(ws[ws.len() - 1]));
        lemma_words_append_word(x, ws.last());
        assert(join_spec(ws, seq![' ']) == x + ws.last());
        assert(p.push(ws.last()) =~= ws);
    }
}

/// Law: normalizing keeps the words of a string, in order, and changes
/// nothing more on a second pass.
pub proof fn lemma_normalize_keeps_words(s: Seq<char>)
    ensures
        words_spec(normalize_spec(s)) == words_spec(s),
        normalize_spec(normalize_spec(s)) == normalize_spec(s),
{
    lemma_words_are_words(s);
    lemma_words_of_join(words_spec(s));
}

/// Words never cross white space: the words of two strings joined by a
/// white-space character are those of the first, then those of the second.
pub(crate) proof fn lemma_words_concat(x: Seq<char>, ws: char, y: Seq<char>)
    requires
        is_white_space(ws),
    ensures
        words_spec(x + seq![ws] + y) == words_spec(x) + words_spec(y),
    decreases y.len(),
{
    let s = x + seq![ws] + y;
    if y.len() == 0 {
        assert(s.drop_last() =~= x);
        assert(s.last() == ws);
        assert(words_spec(y) =~= Seq::<Seq<char>>::empty());
        assert(words_spec(x) + words_spec(y) =~= words_spec(x));
    } else {
        let d = y.drop_last();
        let c = y.last();
        lemma_words_concat(x, ws, d);
        assert(s.drop_last() =~= x + seq![ws] + d);
        assert(s.last() == c);
        if !is_white_space(c) {
            if y.len() >= 2 && !is_white_space(y[y.len() - 2]) {
                assert(s[s.len() - 2] == y[y.len() - 2]);
                assert(d.last() == y[y.len() - 2]);
                lemma_words_last(d);
                let wx = words_spec(x);
                let wd = words_spec(d);
                assert((wx + wd).update(wx.len() + wd.len() - 1, (wx + wd).last().push(c)) =~= wx
                    + wd.update(wd.len() - 1, wd.last().push(c)));
            } else {
                if y.len() >= 2 {
                    assert(s[s.len() - 2] == y[y.len() - 2]);
                } else {
                    assert(s[s.len() - 2] == ws);
                }
                assert((words_spec(x) + words_spec(d)).push(seq![c]) =~= words_spec(x) + words_spec(
                    d,
                ).push(seq![c]));
            }
        }
    }
}

/// Trimming keeps the words of a string.
pub(crate) proof fn lemma_words_trim(s: Seq<char>)
    ensures
        words_spec(trim_spec(s)) == words_spec(s),
{
    lemma_words_trim_start(s);
    lemma_words_trim_end(trim_start_spec(s));
}

proof fn lemma_words_trim_start(s: Seq<char>)
    ensures
        words_spec(trim_start_spec(s)) == words_spec(s),
    decreases s.len(),
{
    if s.len() > 0 && is_white_space(s[0]) {
        let rest = s.drop_first();
        lemma_words_trim_start(rest);
        lemma_words_concat(Seq::<char>::empty(), s[0], rest);
        assert(Seq::<char>::empty() + seq![s[0]] + rest =~= s);
        assert(words_spec(Seq::<char>::empty()) + words_spec(rest) =~= words_spec(rest));
    }
}

proof fn lemma_words_trim_end(s: Seq<char>)
    ensures
        words_spec(trim_end_spec(s)) == words_spec(s),
    decreases s.len(),
{
    if s.len() > 0 && is_white_space(s.last()) {
        lemma_words_trim_end(s.drop_last());
    }
}

/// The value of a string of decimal digits.
pub open spec fn digits_value(s: Seq<char>) -> nat
    decreases s.len(),
{
    if s.len() == 0 {
        0
    } else {
        digits_value(s.drop_last()) * 10 + ((s.last() as u32) - ('0' as u32)) as nat
    }
}

/// Every character is an ASCII decimal digit.
pub open spec fn all_digits(s: Seq<char>) -> bool {
    forall|k: int| 0 <= k < s.len() ==> '0' <= #[trigger] s[k] <= '9'
}

/// A string without its leading `+`, if it has one.
pub open spec fn sign_stripped(s: Seq<char>) -> Seq<char> {
    if s.len() > 0 && s[0] == '+' {
        s.drop_first()
    } else {
        s
    }
}

/// What `u32::from_str` accepts: an optional `+` and then at least one ASCII
/// digit and nothing else, with a value that fits in `u32`.
pub open spec fn parse_u32_spec(s: Seq<char>) -> Option<u32> {
    let d = sign_stripped(s);
    if d.len() > 0 && all_digits(d) && digits_value(d) <= u32::MAX {
        Some(digits_value(d) as u32)
    } else {
        None
    }
}

proof fn lemma_digits_monotone(s: Seq<char>, k: int)
    requires
        0 <= k <= s.len(),
        all_digits(s),
    ensures
        digits_value(s.take(k)) <= digits_value(s),
    decreases s.len() - k,
{
    if k < s.len() {
        lemma_digits_monotone(s, k + 1);
        assert(s.take(k + 1).drop_last() =~= s.take(k));
        assert(s.take(k + 1).last() == s[k]);
    } else {
        assert(s.take(k) =~= s);
    }
}

/// Parses a decimal `u32` as `u32::from_str` does.
pub fn parse_u32(s: &Vec<char>) -> (r: Option<u32>)
    ensures
        r == parse_u32_spec(s@),
{
    let start: usize = if s.len() > 0 && s[0] == '+' {
        1
    } else {
        0
    };
    let ghost d = sign_stripped(s@);
    assert(d =~= s@.subrange(start as int, s@.len() as int));
    if start >= s.len() {
        return None;
    }
    let mut value: u64 = 0;
    let mut i: usize = start;
    while i < s.len()
        invariant
            start <= i <= s.len(),
            d == s@.subrange(start as int, s@.len() as int),
            d == sign_stripped(s@),
            all_digits(d.take(i - start)),
            value == digits_value(d.take(i - start)),
            value <= u32::MAX,
        decreases s.len() - i,
    {
        let c = s[i];
        let ghost pre = d.take(i - start);
        let ghost post = d.take(i + 1 - start);
        proof {
            assert(post.drop_last() =~= pre);
            assert(post.last() == c);
        }
        if c < '0' || '9' < c {
            assert(d[i - start] == c);
            assert(!all_digits(d));
            assert(parse_u32_spec(s@) == None::<u32>);
            return None;
        }
        let digit = (c as u32 - '0' as u32) as u64;
        value = value * 10 + digit;
        if value > u32::MAX as u64 {
            proof {
                assert(value == digits_value(post));
                if all_digits(d) {
                    lemma_digits_monotone(d, i + 1 - start);
                    assert(digits_value(d) > u32::MAX);
                }
                assert(parse_u32_spec(s@) == None::<u32>);
            }
            return None;
        }
        i += 1;
    }
    assert(d.take(d.len() as int) =~= d);
    Some(value as u32)
}


/// The ASCII digit of a value below ten.
pub open spec fn digit_char(d: nat) -> char {
    if d == 0 {
        '0'
    } else if d == 1 {
        '1'
    } else if d == 2 {
        '2'
    } else if d == 3 {
        '3'
    } else if d == 4 {
        '4'
    } else if d == 5 {
        '5'
    } else if d == 6 {
        '6'
    } else if d == 7 {
        '7'
    } else if d == 8 {
        '8'
    } else {
        '9'
    }
}

/// A number written in decimal, without leading zeros.
pub open spec fn decimal(n: nat) -> Seq<char>
    decreases n,
{
    if n < 10 {
        seq![digit_char(n)]
    } else {
        decimal(n / 10).push(digit_char(n % 10))
    }
}

proof fn lemma_decimal_digits(n: nat)
    ensures
        decimal(n).len() > 0,
        all_digits(decimal(n)),
        decimal(n)[0] != '+',
        digits_value(decimal(n)) == n,
    decreases n,
{
    let d = n % 10;
    assert(((digit_char(d) as u32) - ('0' as u32)) as nat == d) by {
        assert(d < 10);
    }
    if n < 10 {
        let s = decimal(n);
        assert(s.drop_last() =~= Seq::<char>::empty());
        assert(s.last() == digit_char(n));
        assert(digits_value(s.drop_last()) == 0);
        assert(n % 10 == n);
    } else {
        lemma_decimal_digits(n / 10);
        let p = decimal(n / 10);
        let s = decimal(n);
        assert(s.drop_last() =~= p);
        assert(s.last() == digit_char(d));
        assert(s[0] == p[0]);
        assert(n == (n / 10) * 10 + d) by {
            vstd::arithmetic::div_mod::lemma_fundamental_div_mod(n as int, 10);
        }
        assert(digits_value(s) == digits_value(p) * 10 + d);
        assert forall|k: int| 0 <= k < s.len() implies '0' <= #[trigger] s[k] <= '9' by {
            if k < p.len() {
                assert(s[k] == p[k]);
            }
        }
    }
}

/// Law: parsing reads back what decimal writing gives: the decimal digits of
/// any `u32`, with or without a leading `+`, parse as that number.
pub proof fn lemma_parse_u32_decimal(n: u32)
    ensures
        parse_u32_spec(decimal(n as nat)) == Some(n),
        parse_u32_spec(seq!['+'] + decimal(n as nat)) == Some(n),
{
    lemma_decimal_digits(n as nat);
    let s = decimal(n as nat);
    assert((seq!['+'] + s).drop_first() =~= s);
    assert(sign_stripped(s) == s);
}

/// Law: appending a digit to an unsigned number's digits multiplies its value
/// by ten and adds the digit, as long as the result fits.
pub proof fn lemma_parse_u32_append_digit(s: Seq<char>, d: nat)
    requires
        s.len() > 0,
        s[0] != '+',
        parse_u32_spec(s) is Some,
        d < 10,
        (parse_u32_spec(s)->0 as nat) * 10 + d <= u32::MAX,
    ensures
        parse_u32_spec(s.push(digit_char(d))) == Some(((parse_u32_spec(s)->0 as nat) * 10 + d) as u32),
{
    let t = s.push(digit_char(d));
    assert(((digit_char(d) as u32) - ('0' as u32)) as nat == d);
    assert(t[0] == s[0]);
    assert(sign_stripped(s) == s);
    assert(sign_stripped(t) == t);
    assert(t.drop_last() =~= s);
    assert forall|k: int| 0 <= k < t.len() implies '0' <= #[trigger] t[k] <= '9' by {
        if k < s.len() {
            assert(t[k] == s[k]);
        }
    }
}

proof fn lemma_trim_end_prefix(s: Seq<char>, i: int)
    requires
        0 <= i < s.len(),
        !is_white_space(s[i]),
    ensures
        i < trim_end_spec(s).len() <= s.len(),
        trim_end_spec(s) == s.take(trim_end_spec(s).len() as int),
    decreases s.len(),
{
    if is_white_space(s.last()) {
        assert(i < s.len() - 1);
        let d = s.drop_last();
        assert(d[i] == s[i]);
        lemma_trim_end_prefix(d, i);
        let r = trim_end_spec(d);
        assert(s.take(r.len() as int) =~= d.take(r.len() as int));
    } else {
        assert(s.take(s.len() as int) =~= s);
    }
}

/// When a string opens with a character that is not white space, and some
/// later character at `i` is not either, trimming keeps everything up to and
/// including `i`.
pub(crate) proof fn lemma_trim_keeps_prefix(s: Seq<char>, i: int)
    requires
        0 <= i < s.len(),
        !is_white_space(s[0]),
        !is_white_space(s[i]),
    ensures
        trim_spec(s).len() > i,
        trim_spec(s).subrange(0, i + 1) == s.subrange(0, i + 1),
{
    assert(trim_start_spec(s) == s);
    lemma_trim_end_prefix(s, i);
    let r = trim_spec(s);
    assert(r == s.take(r.len() as int));
    assert forall|k: int| 0 <= k < i + 1 implies #[trigger] r[k] == s[k] by {
        assert(r[k] == s.take(r.len() as int)[k]);
    }
    assert(r.subrange(0, i + 1) =~= s.subrange(0, i + 1));
}

/// A string that opens and ends with characters that are not white space
/// is its own trim.
pub(crate) proof fn lemma_trim_unchanged(s: Seq<char>)
    requires
        s.len() > 0,
        !is_white_space(s[0]),
        !is_white_space(s[s.len() - 1]),
    ensures
        trim_spec(s) == s,
{
    assert(trim_start_spec(s) == s);
    assert(s.last() == s[s.len() - 1]);
    assert(trim_end_spec(s) == s);
}

/// Decimal digits hold no white space, and no character but digits.
pub(crate) proof fn lemma_decimal_plain(n: nat)
    ensures
        decimal(n).len() > 0,
        trim_spec(decimal(n)) == decimal(n),
        forall|c: char| #[trigger] decimal(n).contains(c) ==> '0' <= c <= '9',
{
    lemma_decimal_digits(n);
    let s = decimal(n);
    assert('0' <= s[s.len() - 1] <= '9');
    lemma_trim_unchanged(s);
}

/// A string without the separator is a single piece.
pub(crate) proof fn lemma_split_whole(s: Seq<char>, sep: char)
    requires
        !s.contains(sep),
    ensures
        split_spec(s, sep) == seq![s],
    decreases s.len(),
{
    if s.len() == 0 {
        assert(s =~= Seq::<char>::empty());
        assert(split_spec(s, sep) =~= seq![s]);
    } else {
        let d = s.drop_last();
        assert forall|c: char| d.contains(c) implies s.contains(c) by {
            let k = choose|k: int| 0 <= k < d.len() && d[k] == c;
            assert(s[k] == c);
        }
        lemma_split_whole(d, sep);
        assert(s[s.len() - 1] == s.last());
        assert(s.last() != sep);
        assert(d.push(s.last()) =~= s);
        let rest = split_spec(d, sep);
        assert(rest.len() == 1 && rest.last() == d);
        assert(split_spec(s, sep) == rest.update(0, d.push(s.last())));
        assert(split_spec(s, sep) =~= seq![s]);
    }
}

/// Law: splitting two strings joined by the separator gives the pieces of
/// the first followed by those of the second.
pub proof fn lemma_split_join(a: Seq<char>, b: Seq<char>, sep: char)
    ensures
        split_spec(a + seq![sep] + b, sep) == split_spec(a, sep) + split_spec(b, sep),
    decreases b.len(),
{
    let s = a + seq![sep] + b;
    if b.len() == 0 {
        assert(s =~= a.push(sep));
        assert(s.drop_last() =~= a);
        assert(split_spec(b, sep) =~= seq![Seq::<char>::empty()]);
        assert(split_spec(s, sep) =~= split_spec(a, sep) + split_spec(b, sep));
    } else {
        let d = b.drop_last();
        lemma_split_join(a, d, sep);
        lemma_split_nonempty(d, sep);
        lemma_split_nonempty(a, sep);
        assert(s.drop_last() =~= a + seq![sep] + d);
        assert(s.last() == b.last());
        assert(split_spec(s, sep) =~= split_spec(a, sep) + split_spec(b, sep));
    }
}

/// Appends characters to a string.
pub fn push_chars(s: &mut String, v: &Vec<char>)
    ensures
        final(s)@ == old(s)@ + v@,
{
    let mut i: usize = 0;
    while i < v.len()
        invariant
            i <= v.len(),
            s@ == old(s)@ + v@.take(i as int),
        decreases v.len() - i,
    {
        s.push(v[i]);
        i += 1;
        assert(s@ =~= old(s)@ + v@.take(i as int));
    }
    assert(v@.take(v.len() as int) =~= v@);
}

/// A message made of a fixed text followed by some characters.
pub fn message(prefix: &str, detail: &Vec<char>) -> (m: String)
    ensures
        m@ == prefix@ + detail@,
{
    let mut m = String::from_str(prefix);
    push_chars(&mut m, detail);
    m
}


/// What `str::to_lowercase` returns for a string: its Unicode lowercase
/// mapping.
pub uninterp spec fn lowercase_spec(s: Seq<char>) -> Seq<char>;

/// `str::to_lowercase`: the string's Unicode lowercase equivalent, a function
/// of the string alone.
#[verifier::external_body]
pub(crate) fn to_lowercase(s: &str) -> (r: String)
    ensures
        r@ == lowercase_spec(s@),
{
    s.to_lowercase()
}

} // verus!

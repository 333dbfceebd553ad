use vstd::prelude::*;

verus! {

// ---------------------------------------------------------------------------
// Characters and strings as sequences
// ---------------------------------------------------------------------------

/// The characters that carry the Unicode `White_Space` property, which is what
/// `char::is_whitespace` and `str::trim` go by.
pub open spec fn is_white_space(c: char) -> bool {
    ||| ('\u{9}' <= c && c <= '\u{d}')
    ||| c == ' '
    ||| c == '\u{85}'
    ||| c == '\u{a0}'
    ||| c == '\u{1680}'
    ||| ('\u{2000}' <= c && c <= '\u{200a}')
    ||| c == '\u{2028}'
    ||| c == '\u{2029}'
    ||| c == '\u{202f}'
    ||| c == '\u{205f}'
    ||| c == '\u{3000}'
}

/// `s` with its leading white space removed.
pub open spec fn trim_start(s: Seq<char>) -> Seq<char>
    decreases s.len(),
{
    if s.len() > 0 && is_white_space(s[0]) {
        trim_start(s.drop_first())
    } else {
        s
    }
}

/// `s` with its trailing white space removed.
pub open spec fn trim_end(s: Seq<char>) -> Seq<char>
    decreases s.len(),
{
    if s.len() > 0 && is_white_space(s.last()) {
        trim_end(s.drop_last())
    } else {
        s
    }
}

/// `s` with white space removed at both ends, as `str::trim` does.
pub open spec fn trimmed(s: Seq<char>) -> Seq<char> {
    trim_end(trim_start(s))
}

proof fn lemma_trim_start_suffix(s: Seq<char>)
    ensures
        exists|i: int| 0 <= i <= s.len() && trim_start(s) == #[trigger] s.subrange(i, s.len() as int),
        trim_start(s).len() > 0 ==> !is_white_space(trim_start(s)[0]),
    decreases s.len(),
{
    if s.len() > 0 && is_white_space(s[0]) {
        lemma_trim_start_suffix(s.drop_first());
        let i = choose|i: int| 0 <= i <= s.drop_first().len() && trim_start(s.drop_first()) == #[trigger] s.drop_first().subrange(i, s.drop_first().len() as int);
        assert(s.drop_first().subrange(i, s.drop_first().len() as int) =~= s.subrange(i + 1, s.len() as int));
    } else {
        assert(s.subrange(0, s.len() as int) =~= s);
    }
}

proof fn lemma_trim_end_prefix(s: Seq<char>)
    ensures
        exists|j: int| 0 <= j <= s.len() && trim_end(s) == #[trigger] s.subrange(0, j),
        trim_end(s).len() > 0 ==> !is_white_space(trim_end(s).last()),
    decreases s.len(),
{
    if s.len() > 0 && is_white_space(s.last()) {
        lemma_trim_end_prefix(s.drop_last());
        let j = choose|j: int| 0 <= j <= s.drop_last().len() && trim_end(s.drop_last()) == #[trigger] s.drop_last().subrange(0, j);
        assert(s.drop_last().subrange(0, j) =~= s.subrange(0, j));
    } else {
        assert(s.subrange(0, s.len() as int) =~= s);
    }
}

/// Trimming keeps a contiguous part of the text, which neither starts nor
/// ends with white space.
pub proof fn law_trimmed(s: Seq<char>)
    ensures
        exists|i: int, j: int| 0 <= i <= j <= s.len() && trimmed(s) == #[trigger] s.subrange(i, j),
        trimmed(s).len() > 0 ==> !is_white_space(trimmed(s)[0]) && !is_white_space(trimmed(s).last()),
{
    lemma_trim_start_suffix(s);
    let t = trim_start(s);
    let i = choose|i: int| 0 <= i <= s.len() && t == #[trigger] s.subrange(i, s.len() as int);
    lemma_trim_end_prefix(t);
    let j = choose|j: int| 0 <= j <= t.len() && trim_end(t) == #[trigger] t.subrange(0, j);
    assert(t.subrange(0, j) =~= s.subrange(i, i + j));
    if trimmed(s).len() > 0 {
        assert(trimmed(s)[0] == t[0]);
    }
}

/// The part of `s` before the first occurrence of `sep`, or all of `s` where
/// `sep` does not occur.
pub open spec fn before_first(s: Seq<char>, sep: char) -> Seq<char>
    decreases s.len(),
{
    if s.len() == 0 {
        s
    } else if s[0] == sep {
        Seq::empty()
    } else {
        seq![s[0]] + before_first(s.drop_first(), sep)
    }
}

/// The pieces of `s` between occurrences of `sep`, empty pieces included, as
/// `str::split` yields them: there is always at least one piece.
pub open spec fn split_on(s: Seq<char>, sep: char) -> Seq<Seq<char>>
    decreases s.len(),
{
    if s.len() == 0 {
        seq![Seq::<char>::empty()]
    } else {
        let pieces = split_on(s.drop_last(), sep);
        if s.last() == sep {
            pieces.push(Seq::<char>::empty())
        } else {
            pieces.update(pieces.len() - 1, pieces.last().push(s.last()))
        }
    }
}

/// The pieces of `s` between white space characters, empty pieces included.
pub open spec fn split_white(s: Seq<char>) -> Seq<Seq<char>>
    decreases s.len(),
{
    if s.len() == 0 {
        seq![Seq::<char>::empty()]
    } else {
        let pieces = split_white(s.drop_last());
        if is_white_space(s.last()) {
            pieces.push(Seq::<char>::empty())
        } else {
            pieces.update(pieces.len() - 1, pieces.last().push(s.last()))
        }
    }
}

/// The non-empty pieces among `pieces`, in order.
pub open spec fn nonempty_pieces(pieces: Seq<Seq<char>>) -> Seq<Seq<char>>
    decreases pieces.len(),
{
    if pieces.len() == 0 {
        Seq::empty()
    } else {
        nonempty_pieces(pieces.drop_last()) + if pieces.last().len() > 0 {
            seq![pieces.last()]
        } else {
            Seq::empty()
        }
    }
}

/// No piece of a split holds the separator.
pub proof fn law_split_pieces_lack_separator(s: Seq<char>, sep: char)
    ensures
        forall|k: int| 0 <= k < split_on(s, sep).len() ==> !(#[trigger] split_on(s, sep)[k]).contains(sep),
    decreases s.len(),
{
    if s.len() > 0 {
        law_split_pieces_lack_separator(s.drop_last(), sep);
        lemma_split_on_nonempty(s.drop_last(), sep);
        let p = split_on(s.drop_last(), sep);
        if s.last() == sep {
            assert forall|k: int| 0 <= k < p.push(Seq::<char>::empty()).len() implies !(
            #[trigger] p.push(Seq::<char>::empty())[k]).contains(sep) by {
                if k < p.len() {
                    assert(p.push(Seq::<char>::empty())[k] == p[k]);
                }
            }
        } else {
            let q = p.update(p.len() - 1, p.last().push(s.last()));
            assert forall|k: int| 0 <= k < q.len() implies !(#[trigger] q[k]).contains(sep) by {
                if k < p.len() - 1 {
                    assert(q[k] == p[k]);
                } else {
                    let w = p.last().push(s.last());
                    assert(!p[p.len() - 1].contains(sep));
                    if w.contains(sep) {
                        let m = choose|m: int| 0 <= m < w.len() && w[m] == sep;
                        if m < p.last().len() {
                            assert(p.last()[m] == sep);
                        }
                    }
                }
            }
        }
    }
}

/// The non-empty pieces are non-empty and come from `pieces`.
pub proof fn lemma_nonempty_pieces(pieces: Seq<Seq<char>>)
    ensures
        forall|k: int| 0 <= k < nonempty_pieces(pieces).len() ==> (#[trigger] nonempty_pieces(pieces)[k]).len() > 0
            && pieces.contains(nonempty_pieces(pieces)[k]),
    decreases pieces.len(),
{
    if pieces.len() > 0 {
        lemma_nonempty_pieces(pieces.drop_last());
        let r = nonempty_pieces(pieces.drop_last());
        assert forall|k: int| 0 <= k < nonempty_pieces(pieces).len() implies (#[trigger] nonempty_pieces(pieces)[k]).len() > 0
            && pieces.contains(nonempty_pieces(pieces)[k]) by {
            if k < r.len() {
                assert(nonempty_pieces(pieces)[k] == r[k]);
                let m = choose|m: int| 0 <= m < pieces.drop_last().len() && pieces.drop_last()[m] == r[k];
                assert(pieces[m] == r[k]);
            } else {
                assert(nonempty_pieces(pieces)[k] == pieces.last());
                assert(pieces[pieces.len() - 1] == pieces.last());
            }
        }
    }
}

/// The words of `s`: its runs of characters other than white space.
pub open spec fn words(s: Seq<char>) -> Seq<Seq<char>> {
    nonempty_pieces(split_white(s))
}

proof fn lemma_split_white_nonempty(s: Seq<char>)
    ensures
        split_white(s).len() >= 1,
    decreases s.len(),
{
    if s.len() > 0 {
        lemma_split_white_nonempty(s.drop_last());
    }
}

pub proof fn lemma_split_on_nonempty(s: Seq<char>, sep: char)
    ensures
        split_on(s, sep).len() >= 1,
    decreases s.len(),
{
    if s.len() > 0 {
        lemma_split_on_nonempty(s.drop_last(), sep);
    }
}

/// The characters of `s`, in order.
pub fn chars_of(s: &str) -> (v: Vec<char>)
    ensures
        v@ == s@,
{
    let mut v: Vec<char> = Vec::new();
    for c in it: s.chars()
        invariant
            v@ == it.seq().take(it.index() as int),
            it.seq() == s@,
    {
        v.push(c);
    }
    v
}

/// Appends one character, as `String::push` does.
#[verifier::external_body]
pub(crate) fn push_char(s: &mut String, c: char)
    ensures
        final(s)@ == old(s)@.push(c),
{
    s.push(c);
}

/// The string made of the characters of `v`, in order.
pub fn string_of(v: &[char]) -> (s: String)
    ensures
        s@ == v@,
{
    let mut s = String::new();
    let mut i: usize = 0;
    while i < v.len()
        invariant
            i <= v@.len(),
            s@ == v@.take(i as int),
        decreases v@.len() - i,
    {
        push_char(&mut s, v[i]);
        i = i + 1;
        assert(v@.take(i as int) =~= v@.take(i - 1).push(v@[i - 1]));
    }
    assert(v@.take(v@.len() as int) =~= v@);
    s
}


/// Whether `c` carries the Unicode `White_Space` property.
pub fn is_white_space_char(c: char) -> (b: bool)
    ensures
        b == is_white_space(c),
{
    ('\u{9}' <= c && c <= '\u{d}') || c == ' ' || c == '\u{85}' || c == '\u{a0}' || c == '\u{1680}'
        || ('\u{2000}' <= c && c <= '\u{200a}') || c == '\u{2028}' || c == '\u{2029}' || c
        == '\u{202f}' || c == '\u{205f}' || c == '\u{3000}'
}

/// The characters of `v` from index `from` up to, not including, `to`.
pub fn copy_range(v: &Vec<char>, from: usize, to: usize) -> (r: Vec<char>)
    requires
        from <= to <= v@.len(),
    ensures
        r@ == v@.subrange(from as int, to as int),
{
    let mut r: Vec<char> = Vec::new();
    let mut i: usize = from;
    while i < to
        invariant
            from <= i <= to <= v@.len(),
            r@ == v@.subrange(from as int, i as int),
        decreases to - i,
    {
        r.push(v[i]);
        i = i + 1;
        assert(r@ =~= v@.subrange(from as int, i as int));
    }
    r
}

proof fn lemma_trim_start_skip(s: Seq<char>, i: int)
    requires
        0 <= i <= s.len(),
        forall|k: int| 0 <= k < i ==> is_white_space(#[trigger] s[k]),
    ensures
        trim_start(s) == trim_start(s.subrange(i, s.len() as int)),
    decreases i,
{
    if i > 0 {
        lemma_trim_start_skip(s, i - 1);
        let t = s.subrange(i - 1, s.len() as int);
        assert(t[0] == s[i - 1]);
        assert(is_white_space(t[0]));
        assert(t.drop_first() =~= s.subrange(i, s.len() as int));
        assert(trim_start(t) == trim_start(t.drop_first()));
    } else {
        assert(s.subrange(0, s.len() as int) =~= s);
    }
}

proof fn lemma_trim_end_skip(s: Seq<char>, j: int)
    requires
        0 <= j <= s.len(),
        forall|k: int| j <= k < s.len() ==> is_white_space(#[trigger] s[k]),
    ensures
        trim_end(s) == trim_end(s.subrange(0, j)),
    decreases s.len() - j,
{
    if j < s.len() {
        lemma_trim_end_skip(s, j + 1);
        let t = s.subrange(0, j + 1);
        assert(t.last() == s[j]);
        assert(is_white_space(t.last()));
        assert(t.drop_last() =~= s.subrange(0, j));
        assert(trim_end(t) == trim_end(t.drop_last()));
    } else {
        assert(s.subrange(0, j) =~= s);
    }
}

/// `v` with white space removed at both ends.
pub fn trim_chars(v: &Vec<char>) -> (r: Vec<char>)
    ensures
        r@ == trimmed(v@),
{
    let n = v.len();
    let mut i: usize = 0;
    while i < n && is_white_space_char(v[i])
        invariant
            n == v@.len(),
            i <= n,
            forall|k: int| 0 <= k < i ==> is_white_space(#[trigger] v@[k]),
        decreases n - i,
    {
        i = i + 1;
    }
    let mut j: usize = n;
    while j > i && is_white_space_char(v[j - 1])
        invariant
            n == v@.len(),
            i <= j <= n,
            forall|k: int| j <= k < n ==> is_white_space(#[trigger] v@[k]),
        decreases j - i,
    {
        j = j - 1;
    }
    let r = copy_range(v, i, j);
    proof {
        let s = v@;
        lemma_trim_start_skip(s, i as int);
        let u = s.subrange(i as int, n as int);
        assert(trim_start(u) == u);
        let jj = j - i;
        assert forall|k: int| jj <= k < u.len() implies is_white_space(#[trigger] u[k]) by {
            assert(u[k] == s[k + i]);
        }
        lemma_trim_end_skip(u, jj as int);
        let w = u.subrange(0, jj as int);
        assert(w =~= s.subrange(i as int, j as int));
        if w.len() > 0 {
            assert(w.last() == s[j - 1]);
        }
        assert(trim_end(w) == w);
    }
    r
}

/// The characters of `v` before the first occurrence of `sep`.
pub fn before_first_chars(v: &Vec<char>, sep: char) -> (r: Vec<char>)
    ensures
        r@ == before_first(v@, sep),
{
    let n = v.len();
    let mut i: usize = 0;
    while i < n && v[i] != sep
        invariant
            n == v@.len(),
            i <= n,
            forall|k: int| 0 <= k < i ==> v@[k] != sep,
        decreases n - i,
    {
        i = i + 1;
    }
    proof {
        lemma_before_first_prefix(v@, sep, i as int);
    }
    copy_range(v, 0, i)
}

proof fn lemma_before_first_prefix(s: Seq<char>, sep: char, i: int)
    requires
        0 <= i <= s.len(),
        forall|k: int| 0 <= k < i ==> s[k] != sep,
        i == s.len() || s[i] == sep,
    ensures
        before_first(s, sep) == s.subrange(0, i),
    decreases s.len(),
{
    if s.len() > 0 && i > 0 {
        let t = s.drop_first();
        assert forall|k: int| 0 <= k < i - 1 implies t[k] != sep by {
            assert(t[k] == s[k + 1]);
        }
        if i < s.len() {
            assert(t[i - 1] == s[i]);
        }
        lemma_before_first_prefix(t, sep, i - 1);
        assert(seq![s[0]] + t.subrange(0, i - 1) =~= s.subrange(0, i));
    } else if s.len() > 0 {
        assert(s.subrange(0, 0) =~= Seq::<char>::empty());
    } else {
        assert(s.subrange(0, i) =~= s);
    }
}

/// The contents of each character vector in `v`.
pub open spec fn char_vecs(v: Seq<Vec<char>>) -> Seq<Seq<char>> {
    v.map_values(|x: Vec<char>| x@)
}

/// The pieces of `v` between occurrences of `sep`, as `str::split` yields them.
pub fn split_chars(v: &Vec<char>, sep: char) -> (r: Vec<Vec<char>>)
    ensures
        char_vecs(r@) == split_on(v@, sep),
{
    let n = v.len();
    let mut pieces: Vec<Vec<char>> = Vec::new();
    let mut cur: Vec<char> = Vec::new();
    let mut i: usize = 0;
    while i < n
        invariant
            n == v@.len(),
            i <= n,
            char_vecs(pieces@).push(cur@) == split_on(v@.take(i as int), sep),
        decreases n - i,
    {
        let c = v[i];
        let ghost prev = v@.take(i as int);
        let ghost before = char_vecs(pieces@).push(cur@);
        proof {
            assert(v@.take(i + 1).drop_last() =~= prev);
            assert(v@.take(i + 1).last() == c);
            lemma_split_on_nonempty(prev, sep);
        }
        if c == sep {
            let done = cur;
            pieces.push(done);
            cur = Vec::new();
            assert(char_vecs(pieces@).push(cur@) =~= before.push(Seq::<char>::empty()));
        } else {
            cur.push(c);
            assert(char_vecs(pieces@).push(cur@) =~= before.update(before.len() - 1, before.last().push(c)));
        }
        i = i + 1;
    }
    assert(v@.take(n as int) =~= v@);
    pieces.push(cur);
    pieces
}


/// The non-empty vectors among `pieces`, in order.
pub fn nonempty_char_vecs(pieces: Vec<Vec<char>>) -> (r: Vec<Vec<char>>)
    ensures
        char_vecs(r@) == nonempty_pieces(char_vecs(pieces@)),
{
    let ghost all = char_vecs(pieces@);
    let n = pieces.len();
    let mut r: Vec<Vec<char>> = Vec::new();
    let mut i: usize = 0;
    while i < n
        invariant
            n == all.len(),
            i <= n,
            char_vecs(pieces@) == all,
            char_vecs(r@) == nonempty_pieces(all.take(i as int)),
        decreases n - i,
    {
        assert(all.take(i + 1).drop_last() =~= all.take(i as int));
        assert(all.take(i + 1).last() == pieces@[i as int]@);
        if pieces[i].len() > 0 {
            let ghost before = char_vecs(r@);
            let piece = copy_range(&pieces[i], 0, pieces[i].len());
            assert(piece@ =~= pieces@[i as int]@);
            r.push(piece);
            assert(char_vecs(r@) =~= before + seq![pieces@[i as int]@]);
        } else {
            assert(nonempty_pieces(all.take(i + 1)) =~= nonempty_pieces(all.take(i as int)));
        }
        i = i + 1;
    }
    assert(all.take(n as int) =~= all);
    r
}

/// The words of `v`: its runs of characters other than white space.
pub fn words_of(v: &Vec<char>) -> (r: Vec<Vec<char>>)
    ensures
        char_vecs(r@) == words(v@),
{
    let n = v.len();
    let mut pieces: Vec<Vec<char>> = Vec::new();
    let mut cur: Vec<char> = Vec::new();
    let mut i: usize = 0;
    while i < n
        invariant
            n == v@.len(),
            i <= n,
            char_vecs(pieces@).push(cur@) == split_white(v@.take(i as int)),
        decreases n - i,
    {
        let c = v[i];
        let ghost prev = v@.take(i as int);
        let ghost before = char_vecs(pieces@).push(cur@);
        proof {
            assert(v@.take(i + 1).drop_last() =~= prev);
            assert(v@.take(i + 1).last() == c);
            lemma_split_white_nonempty(prev);
        }
        if is_white_space_char(c) {
            let done = cur;
            pieces.push(done);
            cur = Vec::new();
            assert(char_vecs(pieces@).push(cur@) =~= before.push(Seq::<char>::empty()));
        } else {
            cur.push(c);
            assert(char_vecs(pieces@).push(cur@) =~= before.update(before.len() - 1, before.last().push(c)));
        }
        i = i + 1;
    }
    assert(v@.take(n as int) =~= v@);
    let ghost before = char_vecs(pieces@);
    let ghost last = cur@;
    pieces.push(cur);
    assert(char_vecs(pieces@) =~= before.push(last));
    nonempty_char_vecs(pieces)
}

// ---------------------------------------------------------------------------
// Order of strings
// ---------------------------------------------------------------------------

/// Lexicographic order of strings by code point, which is the order that
/// `Ord` gives `String` and `str`.
pub open spec fn str_lt(a: Seq<char>, b: Seq<char>) -> bool
    decreases a.len(),
{
    if b.len() == 0 {
        false
    } else if a.len() == 0 {
        true
    } else if a[0] != b[0] {
        (a[0] as int) < (b[0] as int)
    } else {
        str_lt(a.drop_first(), b.drop_first())
    }
}

pub open spec fn str_le(a: Seq<char>, b: Seq<char>) -> bool {
    str_lt(a, b) || a == b
}

/// Every element is at most every later one.
pub open spec fn is_sorted(s: Seq<Seq<char>>) -> bool {
    forall|i: int, j: int| 0 <= i < j < s.len() ==> str_le(#[trigger] s[i], #[trigger] s[j])
}

/// Every element is below every later one: sorted, and no element twice.
pub open spec fn is_strictly_sorted(s: Seq<Seq<char>>) -> bool {
    forall|i: int, j: int| 0 <= i < j < s.len() ==> str_lt(#[trigger] s[i], #[trigger] s[j])
}

/// The contents of each string in `v`.
pub open spec fn views(v: Seq<String>) -> Seq<Seq<char>> {
    v.map_values(|x: String| x@)
}

/// The contents of an optional string.
pub open spec fn opt_view(o: Option<String>) -> Option<Seq<char>> {
    match o {
        Some(s) => Some(s@),
        None => None,
    }
}

pub proof fn lemma_str_lt_irreflexive(a: Seq<char>)
    ensures
        !str_lt(a, a),
    decreases a.len(),
{
    if a.len() > 0 {
        lemma_str_lt_irreflexive(a.drop_first());
    }
}

pub proof fn lemma_str_lt_transitive(a: Seq<char>, b: Seq<char>, c: Seq<char>)
    requires
        str_lt(a, b),
        str_lt(b, c),
    ensures
        str_lt(a, c),
    decreases a.len(),
{
    if a.len() > 0 && b.len() > 0 && c.len() > 0 {
        if a[0] == b[0] && b[0] == c[0] {
            lemma_str_lt_transitive(a.drop_first(), b.drop_first(), c.drop_first());
        }
    }
}

pub proof fn lemma_str_lt_total(a: Seq<char>, b: Seq<char>)
    ensures
        a == b || str_lt(a, b) || str_lt(b, a),
    decreases a.len(),
{
    if a.len() > 0 && b.len() > 0 {
        if a[0] == b[0] {
            lemma_str_lt_total(a.drop_first(), b.drop_first());
            if a.drop_first() == b.drop_first() {
                assert(a =~= seq![a[0]] + a.drop_first());
                assert(b =~= seq![b[0]] + b.drop_first());
            }
        } else {
            assert((a[0] as int) != (b[0] as int));
        }
    } else if a.len() == 0 && b.len() == 0 {
        assert(a =~= b);
    }
}

pub proof fn lemma_str_lt_asymmetric(a: Seq<char>, b: Seq<char>)
    requires
        str_lt(a, b),
    ensures
        !str_lt(b, a),
        a != b,
{
    lemma_str_lt_irreflexive(a);
    if str_lt(b, a) {
        lemma_str_lt_transitive(a, b, a);
    }
}

pub proof fn lemma_push_contains<A>(s: Seq<A>, x: A)
    ensures
        forall|y: A| #[trigger] s.push(x).contains(y) <==> (s.contains(y) || y == x),
{
    assert forall|y: A| #[trigger] s.push(x).contains(y) <==> (s.contains(y) || y == x) by {
        if s.contains(y) {
            let k = choose|k: int| 0 <= k < s.len() && s[k] == y;
            assert(s.push(x)[k] == y);
        }
        if y == x {
            assert(s.push(x)[s.len() as int] == y);
        }
        if s.push(x).contains(y) {
            let k = choose|k: int| 0 <= k < s.len() + 1 && s.push(x)[k] == y;
            if k < s.len() {
                assert(s[k] == y);
            }
        }
    }
}

/// Whether `s` is among `v`.
pub fn contains_string(v: &[String], s: &String) -> (b: bool)
    ensures
        b == views(v@).contains(s@),
{
    let mut i: usize = 0;
    while i < v.len()
        invariant
            i <= v@.len(),
            forall|k: int| 0 <= k < i ==> views(v@)[k] != s@,
        decreases v@.len() - i,
    {
        if v[i] == *s {
            assert(views(v@)[i as int] == s@);
            return true;
        }
        i = i + 1;
    }
    false
}

/// Copies of the strings of `v`.
pub fn clone_strings(v: &Vec<String>) -> (r: Vec<String>)
    ensures
        views(r@) == views(v@),
{
    let mut r: Vec<String> = Vec::new();
    let mut i: usize = 0;
    while i < v.len()
        invariant
            i <= v@.len(),
            views(r@) == views(v@).take(i as int),
        decreases v@.len() - i,
    {
        let ghost before = r@;
        let x = v[i].clone();
        r.push(x);
        assert(views(r@) =~= views(before).push(x@));
        i = i + 1;
        assert(views(r@) =~= views(v@).take(i as int));
    }
    assert(views(v@).take(v@.len() as int) =~= views(v@));
    r
}

/// Appends copies of the strings of `from` to `out`.
pub fn extend_strings(out: &mut Vec<String>, from: &Vec<String>)
    ensures
        views(final(out)@) == views(old(out)@) + views(from@),
{
    let ghost start = views(out@);
    let mut i: usize = 0;
    while i < from.len()
        invariant
            i <= from@.len(),
            views(out@) == start + views(from@).take(i as int),
        decreases from@.len() - i,
    {
        let ghost before = out@;
        let x = from[i].clone();
        assert(x@ == views(from@)[i as int]);
        out.push(x);
        assert(views(out@) =~= views(before).push(x@));
        i = i + 1;
        assert(views(out@) =~= start + views(from@).take(i as int));
    }
    assert(views(from@).take(from@.len() as int) =~= views(from@));
}

/// Sorts in place, as `slice::sort` does on strings: the result holds the same
/// strings, as many times each, in ascending order.
#[verifier::external_body]
fn sort_strings(v: &mut Vec<String>)
    ensures
        views(final(v)@).to_multiset() == views(old(v)@).to_multiset(),
        is_sorted(views(final(v)@)),
{
    v.sort();
}

/// The distinct strings of `v`, in ascending order: what `sort` followed by
/// `dedup` leaves.
pub fn sorted_unique(v: Vec<String>) -> (r: Vec<String>)
    ensures
        is_strictly_sorted(views(r@)),
        views(r@).to_set() == views(v@).to_set(),
{
    let ghost old_v = v@;
    let mut v = v;
    sort_strings(&mut v);
    let ghost sorted = views(v@);
    let mut r: Vec<String> = Vec::new();
    let n = v.len();
    let mut i: usize = 0;
    while i < n
        invariant
            n == v@.len(),
            sorted == views(v@),
            is_sorted(sorted),
            i <= n,
            is_strictly_sorted(views(r@)),
            forall|x: Seq<char>| #[trigger] views(r@).contains(x) <==> sorted.take(i as int).contains(x),
            i > 0 ==> r@.len() > 0 && views(r@).last() == sorted[i - 1],
            i == 0 ==> r@.len() == 0,
        decreases n - i,
    {
        let ghost before = views(r@);
        assert(sorted.take(i + 1) =~= sorted.take(i as int).push(sorted[i as int]));
        proof {
            lemma_push_contains(sorted.take(i as int), sorted[i as int]);
        }
        if r.len() == 0 || r[r.len() - 1] != v[i] {
            let x = v[i].clone();
            r.push(x);
            proof {
                assert(views(r@) =~= before.push(sorted[i as int]));
                if i > 0 {
                    let last = sorted[i - 1];
                    assert(str_le(sorted[i - 1], sorted[i as int]));
                    assert(last != sorted[i as int]);
                    assert(str_lt(last, sorted[i as int]));
                    assert forall|a: int, b: int| 0 <= a < b < views(r@).len() implies str_lt(
                        #[trigger] views(r@)[a],
                        #[trigger] views(r@)[b],
                    ) by {
                        if b == views(r@).len() - 1 {
                            if a < before.len() - 1 {
                                assert(str_lt(before[a], before[before.len() - 1]));
                                lemma_str_lt_transitive(before[a], last, sorted[i as int]);
                            }
                        } else {
                            assert(str_lt(before[a], before[b]));
                        }
                    }
                }
                lemma_push_contains(before, sorted[i as int]);
            }
        } else {
            proof {
                assert(before[before.len() - 1] == before.last());
                assert(before.contains(before.last()));
            }
        }
        i = i + 1;
    }
    proof {
        assert(sorted.take(n as int) =~= sorted);
        sorted.to_multiset_ensures();
        views(old_v).to_multiset_ensures();
        assert forall|x: Seq<char>| views(r@).to_set().contains(x) <==> views(old_v).to_set().contains(
            x,
        ) by {
            assert(views(r@).contains(x) <==> sorted.contains(x));
            assert(sorted.contains(x) <==> sorted.to_multiset().count(x) > 0);
            assert(views(old_v).contains(x) <==> views(old_v).to_multiset().count(x) > 0);
        }
        assert(views(r@).to_set() =~= views(old_v).to_set());
    }
    r
}


// ---------------------------------------------------------------------------
// Case and numbers
// ---------------------------------------------------------------------------

/// What `str::to_uppercase` returns for a string: its characters mapped by the
/// Unicode uppercase mapping, where a character may become several.
pub uninterp spec fn unicode_uppercase(s: Seq<char>) -> Seq<char>;

/// The upper case of an ASCII character: `a` to `z` become `A` to `Z`, every
/// other character stays.
pub open spec fn ascii_upper_char(c: char) -> char {
    if 'a' <= c && c <= 'z' {
        ((c as int) - 32) as char
    } else {
        c
    }
}

/// `s` with each ASCII lower-case letter in upper case.
pub open spec fn ascii_uppercase(s: Seq<char>) -> Seq<char> {
    s.map_values(|c: char| ascii_upper_char(c))
}

/// Whether every character of `s` is ASCII.
pub open spec fn is_ascii_text(s: Seq<char>) -> bool {
    forall|k: int| 0 <= k < s.len() ==> (#[trigger] s[k] as int) < 128
}

/// `str::to_uppercase`: the Unicode uppercase mapping, named by
/// `unicode_uppercase`. On ASCII text that mapping turns `a` to `z` into `A`
/// to `Z` and keeps every other character, one for one; on other text
/// nothing more is stated.
#[verifier::external_body]
pub(crate) fn uppercase(s: &str) -> (r: String)
    ensures
        r@ == unicode_uppercase(s@),
        is_ascii_text(s@) ==> r@ == ascii_uppercase(s@),
{
    s.to_uppercase()
}

/// What `Debug` writes for a string: the string in double quotes, with the
/// characters that need it escaped.
pub uninterp spec fn debug_quoted(s: Seq<char>) -> Seq<char>;

/// `format!("{:?}", s)` for a string.
#[verifier::external_body]
pub(crate) fn debug_text(s: &str) -> (r: String)
    ensures
        r@ == debug_quoted(s@),
{
    format!("{:?}", s)
}

/// The decimal digit character for `d`.
pub open spec fn digit_char(d: nat) -> char {
    if d == 0 {
        '0'
    } else if d == 1 {
        '1'
    } else if d == 2 {
        '2'
    } else if d == 3 {
        '3'
    } else if d == 4 {
        '4'
    } else if d == 5 {
        '5'
    } else if d == 6 {
        '6'
    } else if d == 7 {
        '7'
    } else if d == 8 {
        '8'
    } else {
        '9'
    }
}

/// `n` written in decimal, without leading zeros, as `Display` writes an
/// unsigned integer.
pub open spec fn decimal(n: nat) -> Seq<char>
    decreases n,
{
    if n < 10 {
        seq![digit_char(n)]
    } else {
        decimal(n / 10).push(digit_char(n % 10))
    }
}

fn digit(d: u128) -> (c: char)
    requires
        d < 10,
    ensures
        c == digit_char(d as nat),
{
    if d == 0 {
        '0'
    } else if d == 1 {
        '1'
    } else if d == 2 {
        '2'
    } else if d == 3 {
        '3'
    } else if d == 4 {
        '4'
    } else if d == 5 {
        '5'
    } else if d == 6 {
        '6'
    } else if d == 7 {
        '7'
    } else if d == 8 {
        '8'
    } else {
        '9'
    }
}

/// Appends `n` in decimal to `s`.
pub fn push_decimal(s: &mut String, n: u128)
    ensures
        final(s)@ == old(s)@ + decimal(n as nat),
    decreases n,
{
    if n >= 10 {
        push_decimal(s, n / 10);
    }
    push_char(s, digit(n % 10));
    assert(final(s)@ =~= old(s)@ + decimal(n as nat));
}

/// Appends `t` to `s`.
pub fn push_str(s: &mut String, t: &str)
    ensures
        final(s)@ == old(s)@ + t@,
{
    let v = chars_of(t);
    let ghost start = s@;
    let mut i: usize = 0;
    while i < v.len()
        invariant
            i <= v@.len(),
            v@ == t@,
            s@ == start + v@.take(i as int),
        decreases v@.len() - i,
    {
        push_char(s, v[i]);
        i = i + 1;
        assert(start + v@.take(i as int) =~= start + v@.take(i - 1) + seq![v@[i - 1]]);
    }
    assert(v@.take(v@.len() as int) =~= v@);
}

} // verus!

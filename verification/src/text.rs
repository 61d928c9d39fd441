//! Character-level text handling: white space, trimming and splitting a
//! line into the non-empty pieces between separators.

use vstd::prelude::*;

verus! {

broadcast use vstd::std_specs::iter::group_iter_axioms, vstd::string::group_string_axioms;

/// The white space that trimming removes: the space, the controls `\t`
/// to `\r`, and the Unicode space, line and paragraph separators (general
/// categories Zs, Zl and Zp).
pub open spec fn is_white_space(c: char) -> bool {
    let n = c as u32;
    ||| n == 0x20
    ||| 0x09 <= n <= 0x0d
    ||| n == 0xa0
    ||| n == 0x1680
    ||| 0x2000 <= n <= 0x200a
    ||| n == 0x2028
    ||| n == 0x2029
    ||| n == 0x202f
    ||| n == 0x205f
    ||| n == 0x3000
}

/// `s` without its leading white space.
pub open spec fn trim_start(s: Seq<char>) -> Seq<char>
    decreases s.len(),
{
    if s.len() > 0 && is_white_space(s[0]) {
        trim_start(s.drop_first())
    } else {
        s
    }
}

/// `s` without its trailing white space.
pub open spec fn trim_end(s: Seq<char>) -> Seq<char>
    decreases s.len(),
{
    if s.len() > 0 && is_white_space(s.last()) {
        trim_end(s.drop_last())
    } else {
        s
    }
}

/// `s` without leading and trailing white space.
pub open spec fn trim(s: Seq<char>) -> Seq<char> {
    trim_end(trim_start(s))
}

/// `s` without the copies of `c` that end it.
pub open spec fn trim_end_char(s: Seq<char>, c: char) -> Seq<char>
    decreases s.len(),
{
    if s.len() > 0 && s.last() == c {
        trim_end_char(s.drop_last(), c)
    } else {
        s
    }
}

/// The pieces of `s` between the occurrences of `sep`, empty pieces
/// included: a text with `k` separators has `k + 1` pieces.
pub open spec fn split_on(s: Seq<char>, sep: char) -> Seq<Seq<char>>
    decreases s.len(),
{
    if s.len() == 0 {
        seq![Seq::<char>::empty()]
    } else {
        let pieces = split_on(s.drop_last(), sep);
        if s.last() == sep {
            pieces.push(Seq::<char>::empty())
        } else {
            pieces.update(pieces.len() - 1, pieces.last().push(s.last()))
        }
    }
}

/// The predicate that keeps a piece: it is not empty.
pub open spec fn nonempty() -> spec_fn(Seq<char>) -> bool {
    |p: Seq<char>| p.len() > 0
}

/// The non-empty pieces of `s` between the occurrences of `sep`, in order.
pub open spec fn fields(s: Seq<char>, sep: char) -> Seq<Seq<char>> {
    split_on(s, sep).filter(nonempty())
}

/// The texts that a vector of strings holds.
pub open spec fn texts(v: Seq<String>) -> Seq<Seq<char>> {
    v.map_values(|t: String| t@)
}

/// A split has at least one piece.
pub proof fn lemma_split_on_len(s: Seq<char>, sep: char)
    ensures
        split_on(s, sep).len() >= 1,
    decreases s.len(),
{
    if s.len() > 0 {
        lemma_split_on_len(s.drop_last(), sep);
    }
}

/// The characters of `s`, in order.
pub fn chars_of(s: &str) -> (v: Vec<char>)
    ensures
        v@ == s@,
{
    let mut v: Vec<char> = Vec::new();
    for c in it: s.chars()
        invariant
            it.seq() == s@,
            v@ == it.seq().take(it.index()),
    {
        v.push(c);
        assert(v@ == it.seq().take(it.index() + 1));
    }
    v
}


/// Whether `c` is white space (see `is_white_space`).
pub fn is_white_space_char(c: char) -> (b: bool)
    ensures
        b == is_white_space(c),
{
    let n = c as u32;
    n == 0x20 || (0x09 <= n && n <= 0x0d) || n == 0xa0 || n == 0x1680 || (0x2000
        <= n && n <= 0x200a) || n == 0x2028 || n == 0x2029 || n == 0x202f || n == 0x205f || n
        == 0x3000
}

proof fn lemma_trim_start_skip(s: Seq<char>, i: int)
    requires
        0 <= i <= s.len(),
        forall|j: int| 0 <= j < i ==> is_white_space(#[trigger] s[j]),
    ensures
        trim_start(s) == trim_start(s.skip(i)),
    decreases i,
{
    if i == 0 {
        assert(s.skip(0) =~= s);
    } else {
        assert(is_white_space(s[0]));
        let t = s.drop_first();
        assert forall|j: int| 0 <= j < i - 1 implies is_white_space(#[trigger] t[j]) by {
            assert(t[j] == s[j + 1]);
        }
        lemma_trim_start_skip(t, i - 1);
        assert(t.skip(i - 1) =~= s.skip(i));
    }
}

proof fn lemma_trim_end_take(s: Seq<char>, k: int)
    requires
        0 <= k <= s.len(),
        forall|j: int| k <= j < s.len() ==> is_white_space(#[trigger] s[j]),
    ensures
        trim_end(s) == trim_end(s.take(k)),
    decreases s.len() - k,
{
    if k == s.len() {
        assert(s.take(k) =~= s);
    } else {
        assert(is_white_space(s.last()));
        let t = s.drop_last();
        assert forall|j: int| k <= j < t.len() implies is_white_space(#[trigger] t[j]) by {
            assert(t[j] == s[j]);
        }
        lemma_trim_end_take(t, k);
        assert(t.take(k) =~= s.take(k));
    }
}

/// `s` without leading and trailing white space.
pub fn trim_str(s: &str) -> (r: String)
    ensures
        r@ == trim(s@),
{
    let cs = chars_of(s);
    let n = cs.len();
    let mut start: usize = 0;
    while start < n && is_white_space_char(cs[start])
        invariant
            start <= n,
            n == cs@.len(),
            forall|j: int| 0 <= j < start ==> is_white_space(#[trigger] cs@[j]),
        decreases n - start,
    {
        start = start + 1;
    }
    let mut end: usize = n;
    while end > start && is_white_space_char(cs[end - 1])
        invariant
            start <= end <= n,
            n == cs@.len(),
            forall|j: int| end <= j < n ==> is_white_space(#[trigger] cs@[j]),
        decreases end - start,
    {
        end = end - 1;
    }
    proof {
        let sv = s@;
        lemma_trim_start_skip(sv, start as int);
        let rest = sv.skip(start as int);
        assert(start < n ==> !is_white_space(rest[0]));
        assert(trim_start(rest) == rest);
        assert forall|j: int| end - start <= j < rest.len() implies is_white_space(
            #[trigger] rest[j],
        ) by {
            assert(rest[j] == sv[j + start]);
        }
        lemma_trim_end_take(rest, end - start);
        let mid = rest.take(end - start);
        assert(end > start ==> !is_white_space(mid.last()));
        assert(trim_end(mid) == mid);
        assert(mid =~= sv.subrange(start as int, end as int));
    }
    s.substring_char(start, end).to_owned()
}


/// The non-empty pieces of `s` between the occurrences of `sep`, in order:
/// `s.split(sep)` with the empty pieces left out.
pub fn split_nonempty(s: &str, sep: char) -> (pieces: Vec<String>)
    ensures
        texts(pieces@) == fields(s@, sep),
{
    let cs = chars_of(s);
    let n = cs.len();
    let mut pieces: Vec<String> = Vec::new();
    let mut start: usize = 0;
    let ghost mut done: Seq<Seq<char>> = seq![];
    proof {
        assert(cs@.take(0) =~= Seq::<char>::empty());
        assert(done.push(cs@.subrange(0, 0)) =~= seq![Seq::<char>::empty()]);
        reveal(Seq::filter);
        assert(texts(pieces@) =~= done.filter(nonempty()));
    }
    for i in 0..n
        invariant
            n == cs@.len(),
            cs@ == s@,
            start <= i,
            split_on(cs@.take(i as int), sep) == done.push(cs@.subrange(start as int, i as int)),
            texts(pieces@) == done.filter(nonempty()),
    {
        let ghost cur = cs@.subrange(start as int, i as int);
        assert(cs@.take(i + 1).drop_last() =~= cs@.take(i as int));
        if cs[i] == sep {
            if start < i {
                let piece = s.substring_char(start, i).to_owned();
                pieces.push(piece);
            }
            proof {
                done.lemma_filter_push(cur, nonempty());
                done = done.push(cur);
                assert(texts(pieces@) =~= done.filter(nonempty()));
                assert(cs@.subrange(i + 1, i + 1) =~= Seq::<char>::empty());
            }
            start = i + 1;
        } else {
            assert(cs@.subrange(start as int, i + 1) =~= cur.push(cs@[i as int]));
        }
    }
    let ghost cur = cs@.subrange(start as int, n as int);
    proof {
        done.lemma_filter_push(cur, nonempty());
        assert(cs@.take(n as int) =~= s@);
    }
    if start < n {
        let piece = s.substring_char(start, n).to_owned();
        pieces.push(piece);
    }
    assert(texts(pieces@) =~= fields(s@, sep));
    pieces
}


/// Whether `a` and `b` hold the same text.
pub fn same_text(a: &str, b: &str) -> (eq: bool)
    ensures
        eq == (a@ == b@),
{
    let ac = chars_of(a);
    let bc = chars_of(b);
    if ac.len() != bc.len() {
        return false;
    }
    for i in 0..ac.len()
        invariant
            ac@ == a@,
            bc@ == b@,
            ac@.len() == bc@.len(),
            forall|j: int| 0 <= j < i ==> ac@[j] == bc@[j],
    {
        if ac[i] != bc[i] {
            return false;
        }
    }
    assert(a@ =~= b@);
    true
}

proof fn lemma_trim_end_char_take(s: Seq<char>, c: char, k: int)
    requires
        0 <= k <= s.len(),
        forall|j: int| k <= j < s.len() ==> #[trigger] s[j] == c,
    ensures
        trim_end_char(s, c) == trim_end_char(s.take(k), c),
    decreases s.len() - k,
{
    if k == s.len() {
        assert(s.take(k) =~= s);
    } else {
        let t = s.drop_last();
        assert forall|j: int| k <= j < t.len() implies #[trigger] t[j] == c by {
            assert(t[j] == s[j]);
        }
        lemma_trim_end_char_take(t, c, k);
        assert(t.take(k) =~= s.take(k));
    }
}

/// `s` without the copies of `c` that end it.
pub fn trim_end_matching(s: &str, c: char) -> (r: String)
    ensures
        r@ == trim_end_char(s@, c),
{
    let cs = chars_of(s);
    let mut end = cs.len();
    while end > 0 && cs[end - 1] == c
        invariant
            end <= cs@.len(),
            cs@ == s@,
            forall|j: int| end <= j < cs@.len() ==> #[trigger] cs@[j] == c,
        decreases end,
    {
        end = end - 1;
    }
    proof {
        lemma_trim_end_char_take(s@, c, end as int);
        assert(s@.take(end as int) =~= s@.subrange(0, end as int));
    }
    s.substring_char(0, end).to_owned()
}

/// Whether the last character of `s` is `c`.
pub fn ends_with_char(s: &str, c: char) -> (b: bool)
    ensures
        b == (s@.len() > 0 && s@.last() == c),
{
    let n = s.unicode_len();
    n > 0 && s.get_char(n - 1) == c
}

/// The text of `s` up to its first `sep`, or all of `s` if it has none.
pub fn first_piece(s: &str, sep: char) -> (r: String)
    ensures
        r@ == split_on(s@, sep)[0],
{
    let cs = chars_of(s);
    let n = cs.len();
    let mut i: usize = 0;
    while i < n && cs[i] != sep
        invariant
            i <= n,
            n == cs@.len(),
            cs@ == s@,
            forall|j: int| 0 <= j < i ==> #[trigger] cs@[j] != sep,
        decreases n - i,
    {
        i = i + 1;
    }
    proof {
        lemma_first_piece(s@, sep, i as int);
    }
    s.substring_char(0, i).to_owned()
}

/// A text with no separator is one piece.
pub proof fn lemma_split_on_single(s: Seq<char>, sep: char)
    requires
        forall|j: int| 0 <= j < s.len() ==> #[trigger] s[j] != sep,
    ensures
        split_on(s, sep) == seq![s],
    decreases s.len(),
{
    if s.len() == 0 {
        assert(s =~= Seq::<char>::empty());
        assert(split_on(s, sep) =~= seq![s]);
    } else {
        let t = s.drop_last();
        assert forall|j: int| 0 <= j < t.len() implies #[trigger] t[j] != sep by {
            assert(t[j] == s[j]);
        }
        lemma_split_on_single(t, sep);
        assert(s.last() == s[s.len() - 1]);
        assert(s.last() != sep);
        assert(t.push(s.last()) =~= s);
        assert(split_on(s, sep) == seq![t].update(0, t.push(s.last())));
        assert(split_on(s, sep) =~= seq![s]);
    }
}

proof fn lemma_split_on_two(s: Seq<char>, sep: char, i: int)
    requires
        0 <= i < s.len(),
        s[i] == sep,
    ensures
        split_on(s, sep).len() >= 2,
    decreases s.len(),
{
    let t = s.drop_last();
    lemma_split_on_len(t, sep);
    if i < t.len() {
        assert(t[i] == s[i]);
        lemma_split_on_two(t, sep, i);
    }
}

/// The first piece of a split is the text up to the first separator.
pub proof fn lemma_first_piece(s: Seq<char>, sep: char, i: int)
    requires
        0 <= i <= s.len(),
        forall|j: int| 0 <= j < i ==> #[trigger] s[j] != sep,
        i < s.len() ==> s[i] == sep,
    ensures
        split_on(s, sep)[0] == s.take(i),
    decreases s.len(),
{
    if i == s.len() {
        lemma_split_on_single(s, sep);
        assert(s.take(i) =~= s);
    } else {
        let t = s.drop_last();
        assert forall|j: int| 0 <= j < i implies #[trigger] t[j] != sep by {
            assert(t[j] == s[j]);
        }
        if i < t.len() {
            assert(t[i] == s[i]);
            lemma_first_piece(t, sep, i);
            assert(t.take(i) =~= s.take(i));
            let pieces = split_on(t, sep);
            lemma_split_on_len(t, sep);
            if s.last() != sep {
                lemma_split_on_two(t, sep, i);
                assert(split_on(s, sep) == pieces.update(pieces.len() - 1, pieces.last().push(
                    s.last(),
                )));
                assert(split_on(s, sep)[0] == pieces[0]);
            } else {
                assert(split_on(s, sep) == pieces.push(Seq::<char>::empty()));
                assert(split_on(s, sep)[0] == pieces[0]);
            }
        } else {
            // the first separator is the last character
            lemma_split_on_single(t, sep);
            assert(t =~= s.take(i));
            assert(s.last() == sep);
            assert(split_on(s, sep) == seq![t].push(Seq::<char>::empty()));
        }
    }
}


proof fn lemma_trim_start_first(s: Seq<char>)
    ensures
        trim_start(s).len() > 0 ==> !is_white_space(trim_start(s)[0]),
    decreases s.len(),
{
    if s.len() > 0 && is_white_space(s[0]) {
        lemma_trim_start_first(s.drop_first());
    }
}

proof fn lemma_trim_end_ends(s: Seq<char>)
    ensures
        trim_end(s).len() > 0 ==> !is_white_space(trim_end(s).last()),
        trim_end(s).len() <= s.len(),
        s.len() > 0 && !is_white_space(s[0]) ==> trim_end(s).len() > 0 && trim_end(s)[0] == s[0],
    decreases s.len(),
{
    if s.len() > 0 && is_white_space(s.last()) {
        let t = s.drop_last();
        lemma_trim_end_ends(t);
        if s.len() > 0 && !is_white_space(s[0]) {
            assert(s.len() > 1);
            assert(t[0] == s[0]);
        }
    }
}

/// Trimming twice is trimming once.
pub proof fn lemma_trim_idempotent(s: Seq<char>)
    ensures
        trim(trim(s)) == trim(s),
        trim(s).len() > 0 ==> !is_white_space(trim(s)[0]) && !is_white_space(trim(s).last()),
{
    let a = trim_start(s);
    lemma_trim_start_first(s);
    let y = trim_end(a);
    lemma_trim_end_ends(a);
    assert(trim_start(y) == y);
    assert(trim_end(y) == y);
}


/// The predicate that keeps a character: it is not `sep`.
pub open spec fn other_than(sep: char) -> spec_fn(char) -> bool {
    |c: char| c != sep
}

/// The pieces of a split hold no separator, nor any character that `s`
/// does not hold.
pub proof fn lemma_split_on_avoids(s: Seq<char>, sep: char, d: char)
    requires
        d == sep || !s.contains(d),
    ensures
        forall|i: int, j: int|
            0 <= i < split_on(s, sep).len() && 0 <= j < split_on(s, sep)[i].len() ==> #[trigger] split_on(
                s,
                sep,
            )[i][j] != d,
    decreases s.len(),
{
    if s.len() > 0 {
        let t = s.drop_last();
        if t.contains(d) {
            let k = choose|k: int| 0 <= k < t.len() && t[k] == d;
            assert(s[k] == d);
        }
        lemma_split_on_avoids(t, sep, d);
        lemma_split_on_len(t, sep);
        let pieces = split_on(t, sep);
        assert(s.last() == s[s.len() - 1]);
        if s.last() != sep {
            assert(s.last() != d);
            let last = pieces.last().push(s.last());
            assert forall|j: int| 0 <= j < last.len() implies last[j] != d by {
                if j < last.len() - 1 {
                    assert(last[j] == pieces[pieces.len() - 1][j]);
                }
            }
        }
    }
}

proof fn lemma_fields_avoid(s: Seq<char>, sep: char, d: char)
    requires
        d == sep || !s.contains(d),
    ensures
        forall|i: int| 0 <= i < fields(s, sep).len() ==> !(#[trigger] fields(s, sep)[i]).contains(d),
{
    lemma_split_on_avoids(s, sep, d);
    let pieces = split_on(s, sep);
    assert forall|i: int| 0 <= i < fields(s, sep).len() implies !(
    #[trigger] fields(s, sep)[i]).contains(d) by {
        let x = fields(s, sep)[i];
        assert(pieces.filter(nonempty()).contains(x));
        pieces.lemma_filter_contains_rev(nonempty(), x);
        let k = choose|k: int| 0 <= k < pieces.len() && pieces[k] == x;
        assert forall|j: int| 0 <= j < x.len() implies x[j] != d by {
            assert(pieces[k][j] != d);
        }
    }
}

/// The pieces that `fields` gives are non-empty and hold no separator, nor
/// any character that `s` does not hold.
pub proof fn lemma_fields_pieces(s: Seq<char>, sep: char)
    ensures
        forall|i: int|
            0 <= i < fields(s, sep).len() ==> (#[trigger] fields(s, sep)[i]).len() > 0 && !fields(
                s,
                sep,
            )[i].contains(sep),
        forall|d: char, i: int|
            !s.contains(d) && 0 <= i < fields(s, sep).len() ==> !#[trigger] fields(
                s,
                sep,
            )[i].contains(d),
{
    broadcast use vstd::seq_lib::group_filter_ensures;

    lemma_fields_avoid(s, sep, sep);
    assert forall|d: char, i: int|
        !s.contains(d) && 0 <= i < fields(s, sep).len() implies !#[trigger] fields(
        s,
        sep,
    )[i].contains(d) by {
        lemma_fields_avoid(s, sep, d);
    }
    assert forall|i: int| 0 <= i < fields(s, sep).len() implies (#[trigger] fields(
        s,
        sep,
    )[i]).len() > 0 by {
        split_on(s, sep).lemma_filter_pred(nonempty(), i);
    }
}

proof fn lemma_split_on_flatten(s: Seq<char>, sep: char)
    ensures
        split_on(s, sep).flatten_alt() == s.filter(other_than(sep)),
    decreases s.len(),
{
    reveal(Seq::filter);
    if s.len() == 0 {
        let pieces = split_on(s, sep);
        assert(pieces.drop_last() =~= Seq::<Seq<char>>::empty());
        assert(Seq::<Seq<char>>::empty().flatten_alt() == Seq::<char>::empty());
        assert(pieces.last() == Seq::<char>::empty());
        assert(pieces.flatten_alt() =~= Seq::<char>::empty());
    } else {
        let t = s.drop_last();
        lemma_split_on_flatten(t, sep);
        lemma_split_on_len(t, sep);
        let pieces = split_on(t, sep);
        t.lemma_filter_push(s.last(), other_than(sep));
        assert(t.push(s.last()) =~= s);
        if s.last() == sep {
            assert(pieces.push(Seq::<char>::empty()).drop_last() =~= pieces);
            assert(split_on(s, sep).flatten_alt() =~= pieces.flatten_alt());
        } else {
            let up = pieces.update(pieces.len() - 1, pieces.last().push(s.last()));
            assert(up.drop_last() =~= pieces.drop_last());
            assert(pieces.flatten_alt() == pieces.drop_last().flatten_alt() + pieces.last());
            assert(up.flatten_alt() =~= pieces.flatten_alt().push(s.last()));
        }
    }
}

proof fn lemma_filter_nonempty_flatten(p: Seq<Seq<char>>)
    ensures
        p.filter(nonempty()).flatten_alt() == p.flatten_alt(),
    decreases p.len(),
{
    if p.len() > 0 {
        let q = p.drop_last();
        lemma_filter_nonempty_flatten(q);
        q.lemma_filter_push(p.last(), nonempty());
        assert(q.push(p.last()) =~= p);
        let f = q.filter(nonempty());
        if p.last().len() > 0 {
            assert(f.push(p.last()).drop_last() =~= f);
        } else {
            assert(p.last() =~= Seq::<char>::empty());
            assert(p.flatten_alt() =~= q.flatten_alt());
        }
    } else {
        reveal(Seq::filter);
    }
}

/// Splitting loses nothing but the separators: the pieces that `fields`
/// gives, put back together, are `s` with every `sep` taken out.
pub proof fn lemma_fields_concat(s: Seq<char>, sep: char)
    ensures
        fields(s, sep).flatten() == s.filter(other_than(sep)),
{
    lemma_split_on_flatten(s, sep);
    lemma_filter_nonempty_flatten(split_on(s, sep));
    fields(s, sep).lemma_flatten_and_flatten_alt_are_equivalent();
}


/// The pieces of `s` between the occurrences of `sep`, empty ones
/// included: `s.split(sep)`.
pub fn split_all(s: &str, sep: char) -> (pieces: Vec<String>)
    ensures
        texts(pieces@) == split_on(s@, sep),
{
    let cs = chars_of(s);
    let n = cs.len();
    let mut pieces: Vec<String> = Vec::new();
    let mut start: usize = 0;
    proof {
        assert(cs@.take(0) =~= Seq::<char>::empty());
        assert(texts(pieces@).push(cs@.subrange(0, 0)) =~= seq![Seq::<char>::empty()]);
    }
    for i in 0..n
        invariant
            n == cs@.len(),
            cs@ == s@,
            start <= i,
            split_on(cs@.take(i as int), sep) == texts(pieces@).push(
                cs@.subrange(start as int, i as int),
            ),
    {
        let ghost cur = cs@.subrange(start as int, i as int);
        let ghost before = texts(pieces@);
        assert(cs@.take(i + 1).drop_last() =~= cs@.take(i as int));
        if cs[i] == sep {
            let piece = s.substring_char(start, i).to_owned();
            pieces.push(piece);
            proof {
                assert(texts(pieces@) =~= before.push(cur));
                assert(cs@.subrange(i + 1, i + 1) =~= Seq::<char>::empty());
            }
            start = i + 1;
        } else {
            assert(cs@.subrange(start as int, i + 1) =~= cur.push(cs@[i as int]));
        }
    }
    let ghost before = texts(pieces@);
    let piece = s.substring_char(start, n).to_owned();
    pieces.push(piece);
    proof {
        assert(cs@.take(n as int) =~= s@);
        assert(texts(pieces@) =~= before.push(cs@.subrange(start as int, n as int)));
    }
    pieces
}

/// Splitting at a separator splits the two sides apart: the pieces of
/// `a`, the separator and `b` are the pieces of `a` then those of `b`.
pub proof fn lemma_split_on_join(a: Seq<char>, b: Seq<char>, sep: char)
    ensures
        split_on(a + seq![sep] + b, sep) == split_on(a, sep) + split_on(b, sep),
    decreases b.len(),
{
    let whole = a + seq![sep] + b;
    lemma_split_on_len(a, sep);
    if b.len() == 0 {
        assert(whole.drop_last() =~= a);
        assert(whole.last() == sep);
        assert(split_on(b, sep) =~= seq![Seq::<char>::empty()]);
        assert(split_on(whole, sep) =~= split_on(a, sep) + split_on(b, sep));
    } else {
        let b1 = b.drop_last();
        lemma_split_on_join(a, b1, sep);
        lemma_split_on_len(b1, sep);
        assert(whole.drop_last() =~= a + seq![sep] + b1);
        assert(whole.last() == b.last());
        let x = split_on(a, sep);
        let y = split_on(b1, sep);
        if b.last() == sep {
            assert((x + y).push(Seq::<char>::empty()) =~= x + y.push(Seq::<char>::empty()));
        } else {
            let xy = x + y;
            assert(xy.update(xy.len() - 1, xy.last().push(b.last())) =~= x + y.update(
                y.len() - 1,
                y.last().push(b.last()),
            ));
        }
    }
}

/// The non-empty pieces of `a`, a separator and `b` are those of `a`
/// then those of `b`.
pub proof fn lemma_fields_join(a: Seq<char>, b: Seq<char>, sep: char)
    ensures
        fields(a + seq![sep] + b, sep) == fields(a, sep) + fields(b, sep),
{
    broadcast use Seq::filter_distributes_over_add;

    lemma_split_on_join(a, b, sep);
}

/// Dropping a separator that borders an empty piece (one at either end, or
/// one of two in a row) leaves the non-empty pieces as they were: `a||b`,
/// `|a|b` and `a|b|` all split into `a` and `b`.
pub proof fn lemma_fields_drop_empty_piece(s: Seq<char>, sep: char, i: int)
    requires
        0 <= i < s.len(),
        s[i] == sep,
        i == 0 || i == s.len() - 1 || s[i + 1] == sep,
    ensures
        fields(s.remove(i), sep) == fields(s, sep),
{
    reveal(Seq::filter);
    let a = s.take(i);
    let b = s.skip(i + 1);
    assert(s =~= a + seq![sep] + b);
    assert(s.remove(i) =~= a + b);
    lemma_fields_join(a, b, sep);
    let empty = Seq::<char>::empty();
    assert(fields(empty, sep) =~= Seq::<Seq<char>>::empty()) by {
        let none = Seq::<Seq<char>>::empty();
        assert(split_on(empty, sep) =~= none.push(empty));
        none.lemma_filter_push(empty, nonempty());
        assert(none.filter(nonempty()) =~= none);
    }
    if i == 0 {
        assert(a =~= empty);
        assert(s.remove(i) =~= b);
        assert(fields(s, sep) =~= fields(b, sep));
    } else if i + 1 < s.len() && s[i + 1] == sep {
        let b2 = b.skip(1);
        assert(b =~= empty + seq![sep] + b2);
        lemma_fields_join(empty, b2, sep);
        assert(fields(b, sep) =~= fields(b2, sep));
        assert(s.remove(i) =~= a + seq![sep] + b2);
        lemma_fields_join(a, b2, sep);
    } else {
        assert(i == s.len() - 1);
        assert(b =~= empty);
        assert(s.remove(i) =~= a);
        assert(fields(s, sep) =~= fields(a, sep));
    }
}

proof fn lemma_trim_range(s: Seq<char>, st: int, en: int)
    requires
        0 <= st <= en <= s.len(),
        forall|j: int| 0 <= j < st ==> is_white_space(#[trigger] s[j]),
        forall|j: int| en <= j < s.len() ==> is_white_space(#[trigger] s[j]),
        st < en ==> !is_white_space(s[st]) && !is_white_space(s[en - 1]),
    ensures
        trim(s) == s.subrange(st, en),
{
    if st == en {
        lemma_trim_start_skip(s, s.len() as int);
        assert(s.skip(s.len() as int) =~= Seq::<char>::empty());
        assert(trim_start(s) == Seq::<char>::empty());
        assert(s.subrange(st, en) =~= Seq::<char>::empty());
    } else {
        lemma_trim_start_skip(s, st);
        let rest = s.skip(st);
        assert(rest[0] == s[st]);
        assert(trim_start(rest) == rest);
        assert forall|j: int| en - st <= j < rest.len() implies is_white_space(#[trigger] rest[j]) by {
            assert(rest[j] == s[j + st]);
        }
        lemma_trim_end_take(rest, en - st);
        let mid = rest.take(en - st);
        assert(mid.last() == s[en - 1]);
        assert(trim_end(mid) == mid);
        assert(mid =~= s.subrange(st, en));
    }
}

proof fn leading_white_space(s: Seq<char>, k: int) -> (st: int)
    requires
        0 <= k <= s.len(),
        forall|j: int| 0 <= j < k ==> is_white_space(#[trigger] s[j]),
    ensures
        k <= st <= s.len(),
        forall|j: int| 0 <= j < st ==> is_white_space(#[trigger] s[j]),
        st < s.len() ==> !is_white_space(s[st]),
    decreases s.len() - k,
{
    if k < s.len() && is_white_space(s[k]) {
        leading_white_space(s, k + 1)
    } else {
        k
    }
}

proof fn trailing_white_space(s: Seq<char>, st: int, k: int) -> (en: int)
    requires
        0 <= st <= k <= s.len(),
        forall|j: int| k <= j < s.len() ==> is_white_space(#[trigger] s[j]),
    ensures
        st <= en <= k,
        forall|j: int| en <= j < s.len() ==> is_white_space(#[trigger] s[j]),
        en > st ==> !is_white_space(s[en - 1]),
    decreases k - st,
{
    if k > st && is_white_space(s[k - 1]) {
        trailing_white_space(s, st, k - 1)
    } else {
        k
    }
}

/// Where the white space around a text starts and ends: `trim(s)` is
/// `s.subrange(st, en)`.
proof fn trim_bounds(s: Seq<char>) -> (r: (int, int))
    ensures
        0 <= r.0 <= r.1 <= s.len(),
        forall|j: int| 0 <= j < r.0 ==> is_white_space(#[trigger] s[j]),
        forall|j: int| r.1 <= j < s.len() ==> is_white_space(#[trigger] s[j]),
        r.0 < r.1 ==> !is_white_space(s[r.0]) && !is_white_space(s[r.1 - 1]),
        trim(s) == s.subrange(r.0, r.1),
{
    let st = leading_white_space(s, 0);
    let en = trailing_white_space(s, st, s.len() as int);
    lemma_trim_range(s, st, en);
    (st, en)
}

/// A separator that borders an empty piece of the trimmed line: the next
/// character is a separator too, or the separator is the first non-white
/// character and the next character is not white space, or it is the last
/// non-white character and the one before is not white space.
pub open spec fn borders_empty_piece(s: Seq<char>, sep: char, i: int) -> bool {
    &&& 0 <= i < s.len()
    &&& s[i] == sep
    &&& {
        ||| i + 1 < s.len() && s[i + 1] == sep
        ||| (forall|j: int| 0 <= j < i ==> is_white_space(#[trigger] s[j])) && i + 1 < s.len()
            && !is_white_space(s[i + 1])
        ||| (forall|j: int| i < j < s.len() ==> is_white_space(#[trigger] s[j])) && i > 0
            && !is_white_space(s[i - 1])
    }
}

/// Taking out of a line a separator that borders an empty piece (see
/// `borders_empty_piece`) leaves the non-empty pieces of the trimmed line
/// as they were.
pub proof fn lemma_trimmed_fields_drop_empty_piece(s: Seq<char>, sep: char, i: int)
    requires
        !is_white_space(sep),
        borders_empty_piece(s, sep, i),
    ensures
        fields(trim(s.remove(i)), sep) == fields(trim(s), sep),
{
    let (st, en) = trim_bounds(s);
    let t = s.remove(i);
    // the separator is not white space, so it lies inside the trimmed text
    assert(st <= i < en) by {
        if i < st {
            assert(is_white_space(s[i]));
        }
        if i >= en {
            assert(is_white_space(s[i]));
        }
    }
    let tr = trim(s);
    assert(tr[i - st] == sep);
    if i + 1 < s.len() && s[i + 1] == sep {
        assert(i + 1 < en) by {
            if i + 1 >= en {
                assert(is_white_space(s[i + 1]));
            }
        }
        assert forall|j: int| 0 <= j < st implies is_white_space(#[trigger] t[j]) by {
            assert(t[j] == s[j]);
        }
        assert forall|j: int| en - 1 <= j < t.len() implies is_white_space(#[trigger] t[j]) by {
            assert(t[j] == s[j + 1]);
        }
        if st == i {
            assert(t[st] == s[i + 1]);
        } else {
            assert(t[st] == s[st]);
        }
        assert(t[en - 2] == s[en - 1]);
        lemma_trim_range(t, st, en - 1);
        assert(t.subrange(st, en - 1) =~= tr.remove(i - st));
        assert(tr[i - st + 1] == sep);
        lemma_fields_drop_empty_piece(tr, sep, i - st);
    } else if (forall|j: int| 0 <= j < i ==> is_white_space(#[trigger] s[j])) && i + 1 < s.len()
        && !is_white_space(s[i + 1]) {
        assert(st == i) by {
            if st < i {
                assert(is_white_space(s[st]));
            }
        }
        assert(i + 1 < en) by {
            if i + 1 >= en {
                assert(is_white_space(s[i + 1]));
            }
        }
        assert forall|j: int| 0 <= j < i implies is_white_space(#[trigger] t[j]) by {
            assert(t[j] == s[j]);
        }
        assert forall|j: int| en - 1 <= j < t.len() implies is_white_space(#[trigger] t[j]) by {
            assert(t[j] == s[j + 1]);
        }
        assert(t[i] == s[i + 1]);
        assert(t[en - 2] == s[en - 1]);
        lemma_trim_range(t, i, en - 1);
        assert(t.subrange(i, en - 1) =~= tr.remove(0));
        lemma_fields_drop_empty_piece(tr, sep, 0);
    } else {
        assert(forall|j: int| i < j < s.len() ==> is_white_space(#[trigger] s[j]));
        assert(i > 0 && !is_white_space(s[i - 1]));
        assert(en == i + 1) by {
            if en > i + 1 {
                assert(is_white_space(s[en - 1]));
            }
        }
        assert(st < i) by {
            if st == i {
                assert(!is_white_space(s[i - 1]));
            }
        }
        assert forall|j: int| 0 <= j < st implies is_white_space(#[trigger] t[j]) by {
            assert(t[j] == s[j]);
        }
        assert forall|j: int| i <= j < t.len() implies is_white_space(#[trigger] t[j]) by {
            assert(t[j] == s[j + 1]);
        }
        assert(t[st] == s[st]);
        assert(t[i - 1] == s[i - 1]);
        lemma_trim_range(t, st, i);
        assert(t.subrange(st, i) =~= tr.remove(i - st));
        lemma_fields_drop_empty_piece(tr, sep, i - st);
    }
}

/// Text with no separator in front of a line joins the line's first piece.
pub proof fn lemma_split_on_prefix(p: Seq<char>, x: Seq<char>, sep: char)
    requires
        !p.contains(sep),
    ensures
        split_on(p + x, sep) == split_on(x, sep).update(0, p + split_on(x, sep)[0]),
    decreases x.len(),
{
    lemma_split_on_len(x, sep);
    if x.len() == 0 {
        assert forall|j: int| 0 <= j < p.len() implies #[trigger] p[j] != sep by {
            if p[j] == sep {
                assert(p.contains(sep));
            }
        }
        lemma_split_on_single(p, sep);
        assert(p + x =~= p);
        assert(split_on(x, sep) =~= seq![Seq::<char>::empty()]);
        assert(split_on(x, sep).update(0, p + split_on(x, sep)[0]) =~= seq![p]);
    } else {
        let x1 = x.drop_last();
        let c = x.last();
        lemma_split_on_prefix(p, x1, sep);
        lemma_split_on_len(x1, sep);
        assert((p + x).drop_last() =~= p + x1);
        assert((p + x).last() == c);
        let q = split_on(x1, sep);
        if c == sep {
            assert(split_on(x, sep) == q.push(Seq::<char>::empty()));
            assert(q.update(0, p + q[0]).push(Seq::<char>::empty()) =~= q.push(
                Seq::<char>::empty(),
            ).update(0, p + q[0]));
        } else {
            assert(split_on(x, sep) == q.update(q.len() - 1, q.last().push(c)));
            if q.len() == 1 {
                assert((p + q[0]).push(c) =~= p + q[0].push(c));
                assert(q.update(0, p + q[0]).update(0, (p + q[0]).push(c)) =~= q.update(
                    0,
                    q[0].push(c),
                ).update(0, p + q[0].push(c)));
            } else {
                let u = q.update(0, p + q[0]);
                assert(u.update(u.len() - 1, u.last().push(c)) =~= q.update(
                    q.len() - 1,
                    q.last().push(c),
                ).update(0, p + q[0]));
            }
        }
    }
}

/// Text with no separator at the end of a line joins the line's last piece.
pub proof fn lemma_split_on_suffix(x: Seq<char>, p: Seq<char>, sep: char)
    requires
        !p.contains(sep),
    ensures
        split_on(x + p, sep) == split_on(x, sep).update(
            split_on(x, sep).len() - 1,
            split_on(x, sep).last() + p,
        ),
    decreases p.len(),
{
    lemma_split_on_len(x, sep);
    let q = split_on(x, sep);
    if p.len() == 0 {
        assert(x + p =~= x);
        assert(q.last() + p =~= q.last());
        assert(q.update(q.len() - 1, q.last() + p) =~= q);
    } else {
        let p1 = p.drop_last();
        let c = p.last();
        assert(c == p[p.len() - 1]);
        assert(!p1.contains(sep)) by {
            if p1.contains(sep) {
                let j = choose|j: int| 0 <= j < p1.len() && p1[j] == sep;
                assert(p[j] == sep);
            }
        }
        assert(c != sep);
        lemma_split_on_suffix(x, p1, sep);
        assert((x + p).drop_last() =~= x + p1);
        assert((x + p).last() == c);
        let u = q.update(q.len() - 1, q.last() + p1);
        assert(u.last() == q.last() + p1);
        assert((q.last() + p1).push(c) =~= q.last() + p);
        assert(u.update(u.len() - 1, u.last().push(c)) =~= q.update(q.len() - 1, q.last() + p));
    }
}

/// Separators at the front of a text make no piece.
pub proof fn lemma_fields_sep_prefix(p: Seq<char>, x: Seq<char>, sep: char)
    requires
        forall|j: int| 0 <= j < p.len() ==> #[trigger] p[j] == sep,
    ensures
        fields(p + x, sep) == fields(x, sep),
    decreases p.len(),
{
    if p.len() > 0 {
        let p1 = p.drop_first();
        assert forall|j: int| 0 <= j < p1.len() implies #[trigger] p1[j] == sep by {
            assert(p1[j] == p[j + 1]);
        }
        lemma_fields_sep_prefix(p1, x, sep);
        let empty = Seq::<char>::empty();
        assert(p + x =~= empty + seq![sep] + (p1 + x));
        lemma_fields_join(empty, p1 + x, sep);
        lemma_fields_of_empty(sep);
        assert(fields(empty, sep) + fields(p1 + x, sep) =~= fields(p1 + x, sep));
    } else {
        assert(p + x =~= x);
    }
}

/// Separators at the end of a text make no piece.
pub proof fn lemma_fields_sep_suffix(x: Seq<char>, p: Seq<char>, sep: char)
    requires
        forall|j: int| 0 <= j < p.len() ==> #[trigger] p[j] == sep,
    ensures
        fields(x + p, sep) == fields(x, sep),
    decreases p.len(),
{
    if p.len() > 0 {
        let p1 = p.drop_last();
        assert forall|j: int| 0 <= j < p1.len() implies #[trigger] p1[j] == sep by {
            assert(p1[j] == p[j]);
        }
        lemma_fields_sep_suffix(x, p1, sep);
        let empty = Seq::<char>::empty();
        assert(p[p.len() - 1] == sep);
        assert(x + p =~= (x + p1) + seq![sep] + empty);
        lemma_fields_join(x + p1, empty, sep);
        lemma_fields_of_empty(sep);
        assert(fields(x + p1, sep) + fields(empty, sep) =~= fields(x + p1, sep));
    } else {
        assert(x + p =~= x);
    }
}

/// The empty text has no piece.
pub proof fn lemma_fields_of_empty(sep: char)
    ensures
        fields(Seq::<char>::empty(), sep) == Seq::<Seq<char>>::empty(),
{
    reveal(Seq::filter);
    let empty = Seq::<char>::empty();
    let none = Seq::<Seq<char>>::empty();
    assert(split_on(empty, sep) =~= none.push(empty));
    none.lemma_filter_push(empty, nonempty());
    assert(none.filter(nonempty()) =~= none);
}

/// Changing the first piece of a split, with pieces that are not empty
/// before and after, changes the first non-empty piece alike.
pub proof fn lemma_filter_update_first(q: Seq<Seq<char>>, v: Seq<char>)
    requires
        q.len() > 0,
        q[0].len() > 0,
        v.len() > 0,
    ensures
        q.filter(nonempty()).len() > 0,
        q.filter(nonempty())[0] == q[0],
        q.update(0, v).filter(nonempty()) == q.filter(nonempty()).update(0, v),
    decreases q.len(),
{
    reveal(Seq::filter);
    if q.len() == 1 {
        let none = Seq::<Seq<char>>::empty();
        assert(q =~= none.push(q[0]));
        assert(q.update(0, v) =~= none.push(v));
        none.lemma_filter_push(q[0], nonempty());
        none.lemma_filter_push(v, nonempty());
        assert(none.filter(nonempty()) =~= none);
    } else {
        let q1 = q.drop_last();
        lemma_filter_update_first(q1, v);
        assert(q.update(0, v).drop_last() =~= q1.update(0, v));
        assert(q.update(0, v).last() == q.last());
        q1.lemma_filter_push(q.last(), nonempty());
        q1.update(0, v).lemma_filter_push(q.last(), nonempty());
        assert(q1.push(q.last()) =~= q);
        assert(q1.update(0, v).push(q.last()) =~= q.update(0, v));
        let f = q1.filter(nonempty());
        if q.last().len() > 0 {
            assert(f.update(0, v).push(q.last()) =~= f.push(q.last()).update(0, v));
        }
    }
}

/// Changing the last piece of a split, with pieces that are not empty
/// before and after, changes the last non-empty piece alike.
pub proof fn lemma_filter_update_last(q: Seq<Seq<char>>, v: Seq<char>)
    requires
        q.len() > 0,
        q.last().len() > 0,
        v.len() > 0,
    ensures
        q.filter(nonempty()).len() > 0,
        q.filter(nonempty()).last() == q.last(),
        q.update(q.len() - 1, v).filter(nonempty()) == q.filter(nonempty()).update(
            q.filter(nonempty()).len() - 1,
            v,
        ),
{
    let q1 = q.drop_last();
    assert(q1.push(q.last()) =~= q);
    assert(q1.push(v) =~= q.update(q.len() - 1, v));
    q1.lemma_filter_push(q.last(), nonempty());
    q1.lemma_filter_push(v, nonempty());
    let f = q1.filter(nonempty());
    assert(f.push(v) =~= f.push(q.last()).update(f.len() as int, v));
}

proof fn lemma_split_on_ends(s: Seq<char>, sep: char)
    requires
        s.len() > 0,
    ensures
        s[0] != sep ==> split_on(s, sep)[0].len() > 0,
        s.last() != sep ==> split_on(s, sep).last().len() > 0,
    decreases s.len(),
{
    let t = s.drop_last();
    lemma_split_on_len(t, sep);
    lemma_split_on_len(s, sep);
    let q = split_on(t, sep);
    if t.len() > 0 {
        assert(t[0] == s[0]);
        lemma_split_on_ends(t, sep);
    } else {
        assert(q =~= seq![Seq::<char>::empty()]);
    }
    if s.last() == sep {
        assert(split_on(s, sep) == q.push(Seq::<char>::empty()));
        assert(split_on(s, sep)[0] == q[0]);
    } else {
        assert(split_on(s, sep) == q.update(q.len() - 1, q.last().push(s.last())));
        if q.len() > 1 {
            assert(split_on(s, sep)[0] == q[0]);
        }
    }
}

/// Taking out of a line a separator that is its first non-white
/// character, followed by spaces, changes only the first non-empty piece of
/// the trimmed line, which loses those spaces.
pub proof fn lemma_trimmed_fields_drop_leading_sep(s: Seq<char>, sep: char, i: int, k: int)
    requires
        !is_white_space(sep),
        sep != ' ',
        0 <= i < k < s.len(),
        s[i] == sep,
        forall|j: int| 0 <= j < i ==> is_white_space(#[trigger] s[j]),
        forall|j: int| i < j < k ==> #[trigger] s[j] == ' ',
        !is_white_space(s[k]),
        s[k] != sep,
    ensures
        fields(trim(s.remove(i)), sep).len() > 0,
        fields(trim(s), sep) == fields(trim(s.remove(i)), sep).update(
            0,
            s.subrange(i + 1, k) + fields(trim(s.remove(i)), sep)[0],
        ),
{
    let (st, en) = trim_bounds(s);
    let t = s.remove(i);
    assert(st == i) by {
        if st < i {
            assert(is_white_space(s[st]));
        }
        if st > i {
            assert(is_white_space(s[i]));
        }
    }
    assert(k < en) by {
        if k >= en {
            assert(is_white_space(s[k]));
        }
    }
    assert(i + 1 < k ==> is_white_space(s[i + 1]));
    assert forall|j: int| 0 <= j < k - 1 implies is_white_space(#[trigger] t[j]) by {
        if j < i {
            assert(t[j] == s[j]);
        } else {
            assert(t[j] == s[j + 1]);
            assert(s[j + 1] == ' ');
        }
    }
    assert forall|j: int| en - 1 <= j < t.len() implies is_white_space(#[trigger] t[j]) by {
        assert(t[j] == s[j + 1]);
    }
    assert(t[k - 1] == s[k]);
    assert(t[en - 2] == s[en - 1]);
    lemma_trim_range(t, k - 1, en - 1);
    let r = s.subrange(k, en);
    assert(t.subrange(k - 1, en - 1) =~= r);
    let p = s.subrange(i + 1, k);
    let empty = Seq::<char>::empty();
    assert(trim(s) =~= empty + seq![sep] + (p + r));
    lemma_fields_join(empty, p + r, sep);
    lemma_fields_of_empty(sep);
    assert(fields(trim(s), sep) =~= fields(p + r, sep));
    assert(!p.contains(sep)) by {
        if p.contains(sep) {
            let j = choose|j: int| 0 <= j < p.len() && p[j] == sep;
            assert(s[i + 1 + j] == ' ');
        }
    }
    lemma_split_on_prefix(p, r, sep);
    lemma_split_on_len(r, sep);
    assert(r[0] == s[k]);
    lemma_split_on_ends(r, sep);
    let q = split_on(r, sep);
    if p.len() == 0 {
        assert(p + q[0] =~= q[0]);
    }
    assert((p + q[0]).len() > 0);
    lemma_filter_update_first(q, p + q[0]);
}

/// Taking out of a line a separator that is its last non-white character,
/// after spaces, changes only the last non-empty piece of the trimmed line,
/// which loses those spaces.
pub proof fn lemma_trimmed_fields_drop_trailing_sep(s: Seq<char>, sep: char, i: int, k: int)
    requires
        !is_white_space(sep),
        sep != ' ',
        0 <= k < i < s.len(),
        s[i] == sep,
        forall|j: int| i < j < s.len() ==> is_white_space(#[trigger] s[j]),
        forall|j: int| k < j < i ==> #[trigger] s[j] == ' ',
        !is_white_space(s[k]),
        s[k] != sep,
    ensures
        fields(trim(s.remove(i)), sep).len() > 0,
        fields(trim(s), sep) == fields(trim(s.remove(i)), sep).update(
            fields(trim(s.remove(i)), sep).len() - 1,
            fields(trim(s.remove(i)), sep).last() + s.subrange(k + 1, i),
        ),
{
    let (st, en) = trim_bounds(s);
    let t = s.remove(i);
    assert(en == i + 1) by {
        if en > i + 1 {
            assert(is_white_space(s[en - 1]));
        }
        if en <= i {
            assert(is_white_space(s[i]));
        }
    }
    assert(st <= k) by {
        if st > k {
            assert(is_white_space(s[k]));
        }
    }
    assert forall|j: int| 0 <= j < st implies is_white_space(#[trigger] t[j]) by {
        assert(t[j] == s[j]);
    }
    assert forall|j: int| k + 1 <= j < t.len() implies is_white_space(#[trigger] t[j]) by {
        if j < i {
            assert(t[j] == s[j]);
            assert(s[j] == ' ');
        } else {
            assert(t[j] == s[j + 1]);
        }
    }
    assert(t[st] == s[st]);
    assert(t[k] == s[k]);
    lemma_trim_range(t, st, k + 1);
    let y = s.subrange(st, k + 1);
    assert(t.subrange(st, k + 1) =~= y);
    let p = s.subrange(k + 1, i);
    let empty = Seq::<char>::empty();
    assert(trim(s) =~= (y + p) + seq![sep] + empty);
    lemma_fields_join(y + p, empty, sep);
    lemma_fields_of_empty(sep);
    assert(fields(trim(s), sep) =~= fields(y + p, sep));
    assert(!p.contains(sep)) by {
        if p.contains(sep) {
            let j = choose|j: int| 0 <= j < p.len() && p[j] == sep;
            assert(s[k + 1 + j] == ' ');
        }
    }
    lemma_split_on_suffix(y, p, sep);
    lemma_split_on_len(y, sep);
    assert(y.last() == s[k]);
    lemma_split_on_ends(y, sep);
    let q = split_on(y, sep);
    if p.len() == 0 {
        assert(q.last() + p =~= q.last());
    }
    assert((q.last() + p).len() > 0);
    lemma_filter_update_last(q, q.last() + p);
}

/// A non-empty text with no separator is one piece; with `lemma_fields_join`
/// this fixes the pieces of every text.
pub proof fn lemma_fields_single(s: Seq<char>, sep: char)
    requires
        s.len() > 0,
        !s.contains(sep),
    ensures
        fields(s, sep) == seq![s],
{
    assert forall|j: int| 0 <= j < s.len() implies #[trigger] s[j] != sep by {
        if s[j] == sep {
            assert(s.contains(sep));
        }
    }
    lemma_split_on_single(s, sep);
    let none = Seq::<Seq<char>>::empty();
    assert(seq![s] =~= none.push(s));
    none.lemma_filter_push(s, nonempty());
    reveal(Seq::filter);
    assert(none.filter(nonempty()) =~= none);
}

/// Trimming keeps the text between the first and the last character that
/// is not white space, and drops the white space around it: the result is
/// `s[st..en]` where everything before `st` and from `en` on is white
/// space, and the result starts and ends with a character that is not.
pub proof fn lemma_trim_keeps_inner_text(s: Seq<char>)
    ensures
        exists|st: int, en: int|
            0 <= st <= en <= s.len() && trim(s) == s.subrange(st, en) && (forall|j: int|
                0 <= j < st ==> is_white_space(#[trigger] s[j])) && (forall|j: int|
                en <= j < s.len() ==> is_white_space(#[trigger] s[j])) && (st < en
                ==> !is_white_space(s[st]) && !is_white_space(s[en - 1])),
{
    let (st, en) = trim_bounds(s);
    assert(0 <= st <= en <= s.len() && trim(s) == s.subrange(st, en));
}

/// The characters that trimming treats as white space include the space,
/// tab, line feed and carriage return; the shell's own signs and letters
/// are not white space.
pub proof fn lemma_white_space_examples()
    ensures
        is_white_space(' '),
        is_white_space('\t'),
        is_white_space('\n'),
        is_white_space('\r'),
        !is_white_space('|'),
        !is_white_space('&'),
        !is_white_space('"'),
        !is_white_space('<'),
        !is_white_space('>'),
        !is_white_space('a'),
{
}

/// All the copies of `c` that end a text are dropped, and nothing before
/// them.
pub proof fn lemma_trim_end_char_drops_run(s: Seq<char>, run: Seq<char>, c: char)
    requires
        forall|j: int| 0 <= j < run.len() ==> #[trigger] run[j] == c,
        s.len() == 0 || s.last() != c,
    ensures
        trim_end_char(s + run, c) == s,
{
    lemma_trim_end_char_take(s + run, c, s.len() as int);
    assert((s + run).take(s.len() as int) =~= s);
    if s.len() > 0 {
        assert(s.last() == s[s.len() - 1]);
    }
}

} // verus!

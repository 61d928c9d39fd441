//! Turning one command of a command line into its words, and taking the
//! redirections `> file` and `< file` out of them.

use vstd::prelude::*;
use crate::text::{
    fields, lemma_fields_pieces, lemma_fields_sep_prefix, lemma_fields_sep_suffix,
    lemma_split_on_avoids, lemma_split_on_len, lemma_split_on_prefix, lemma_split_on_suffix,
    split_all, split_nonempty, split_on, texts,
};

verus! {

/// The words of a command line that is split at `"` into the pieces
/// `groups` (empty pieces included): a piece at an even position is
/// outside quotes and is split into its non-empty pieces between spaces; a
/// piece at an odd position is between quotes and is one word, unless it
/// is empty.
pub open spec fn argv_of(groups: Seq<Seq<char>>) -> Seq<Seq<char>>
    decreases groups.len(),
{
    if groups.len() == 0 {
        seq![]
    } else {
        let k = groups.len() - 1;
        argv_of(groups.drop_last()) + if k % 2 == 0 {
            fields(groups[k], ' ')
        } else if groups[k].len() > 0 {
            seq![groups[k]]
        } else {
            seq![]
        }
    }
}

/// The words of `cmd_line`, program name first: the text between quotes
/// `"` is one word (when not empty); the text outside quotes is split at
/// spaces into non-empty words.
pub open spec fn parse_argv_spec(cmd_line: Seq<char>) -> Seq<Seq<char>> {
    argv_of(split_on(cmd_line, '"'))
}

/// The words of a command line, program name first. Words are separated by
/// spaces; a text between double quotes is one word.
pub fn parse_argv(cmd_line: &str) -> (argv: Vec<String>)
    ensures
        texts(argv@) == parse_argv_spec(cmd_line@),
{
    let group = split_all(cmd_line, '"');
    let ghost groups = texts(group@);
    let mut argv: Vec<String> = Vec::new();
    proof {
        assert(groups.take(0) =~= Seq::<Seq<char>>::empty());
        assert(texts(argv@) =~= Seq::<Seq<char>>::empty());
    }
    for i in 0..group.len()
        invariant
            groups == texts(group@),
            texts(argv@) == argv_of(groups.take(i as int)),
    {
        assert(groups.take(i + 1).drop_last() =~= groups.take(i as int));
        assert(groups[i as int] == group[i as int]@);
        let ghost before = argv@;
        if i % 2 == 0 {
            let mut words = split_nonempty(group[i].as_str(), ' ');
            let ghost ws = words@;
            argv.append(&mut words);
            assert(texts(argv@) =~= texts(before) + texts(ws));
        } else if group[i].unicode_len() > 0 {
            argv.push(group[i].clone());
            assert(texts(argv@) =~= texts(before) + seq![groups[i as int]]);
        } else {
            assert(texts(argv@) =~= texts(before) + Seq::<Seq<char>>::empty());
        }
    }
    assert(groups.take(group.len() as int) =~= groups);
    argv
}

/// Which way a redirection sends data.
#[derive(Clone, Copy, Debug, PartialEq, Eq, Structural)]
pub enum RedirectKind {
    /// `< file`: the command reads the file.
    Input,
    /// `> file`: the command writes the file.
    Output,
}

/// A redirection of a command: its kind and the file it names.
#[derive(Clone, Debug, PartialEq, Eq)]
pub struct Redirection {
    pub kind: RedirectKind,
    pub target: String,
}

impl View for Redirection {
    type V = (RedirectKind, Seq<char>);

    open spec fn view(&self) -> (RedirectKind, Seq<char>) {
        (self.kind, self.target@)
    }
}

/// The redirections a vector holds, by their views.
pub open spec fn redirection_views(v: Seq<Redirection>) -> Seq<(RedirectKind, Seq<char>)> {
    v.map_values(|r: Redirection| r@)
}

/// The redirection a word stands for: `>` writes, `<` reads.
pub open spec fn redirect_kind(word: Seq<char>) -> Option<RedirectKind> {
    if word == seq!['>'] {
        Some(RedirectKind::Output)
    } else if word == seq!['<'] {
        Some(RedirectKind::Input)
    } else {
        None
    }
}

/// Every redirection sign that the scan reaches has a file name after it.
///
/// The scan reads the words from the left. At a sign it takes the sign and
/// the next word (the file) out, keeps the word after them as an argument
/// without looking at it, and goes on after that word.
pub open spec fn redirections_complete(words: Seq<Seq<char>>) -> bool
    decreases words.len(),
{
    if words.len() == 0 {
        true
    } else if redirect_kind(words[0]) is Some {
        words.len() >= 2 && (words.len() >= 3 ==> redirections_complete(words.skip(3)))
    } else {
        redirections_complete(words.skip(1))
    }
}

/// The words that the scan (see `redirections_complete`) keeps as the
/// command and its arguments.
pub open spec fn scan_args(words: Seq<Seq<char>>) -> Seq<Seq<char>>
    decreases words.len(),
{
    if words.len() == 0 {
        seq![]
    } else if redirect_kind(words[0]) is Some {
        if words.len() >= 3 {
            seq![words[2]] + scan_args(words.skip(3))
        } else {
            seq![]
        }
    } else {
        seq![words[0]] + scan_args(words.skip(1))
    }
}

/// The redirections that the scan (see `redirections_complete`) finds, in
/// order; where a sign has no file after it, the ones found before it.
pub open spec fn scan_redirections(words: Seq<Seq<char>>) -> Seq<(RedirectKind, Seq<char>)>
    decreases words.len(),
{
    if words.len() == 0 {
        seq![]
    } else if redirect_kind(words[0]) is Some {
        if words.len() >= 3 {
            seq![(redirect_kind(words[0])->0, words[1])] + scan_redirections(words.skip(3))
        } else if words.len() == 2 {
            seq![(redirect_kind(words[0])->0, words[1])]
        } else {
            seq![]
        }
    } else {
        scan_redirections(words.skip(1))
    }
}

/// Whether the word `w` is the single character `c`.
fn word_is(w: &str, c: char) -> (b: bool)
    ensures
        b == (w@ == seq![c]),
{
    if w.unicode_len() == 1 {
        let first = w.get_char(0);
        if first == c {
            assert(w@ =~= seq![c]);
            true
        } else {
            false
        }
    } else {
        false
    }
}

/// The redirection that the word `w` stands for, if any.
pub fn redirect_kind_of(w: &str) -> (k: Option<RedirectKind>)
    ensures
        k == redirect_kind(w@),
{
    if word_is(w, '>') {
        Some(RedirectKind::Output)
    } else if word_is(w, '<') {
        Some(RedirectKind::Input)
    } else {
        None
    }
}

/// Whether some redirection sign that the scan reaches is the last word,
/// with no file name after it.
pub fn has_dangling_redirection(argv: &Vec<String>) -> (b: bool)
    ensures
        b == !redirections_complete(texts(argv@)),
{
    let ghost words = texts(argv@);
    let n = argv.len();
    let mut i: usize = 0;
    assert(words.skip(0) =~= words);
    while i < n
        invariant
            n == argv@.len(),
            words == texts(argv@),
            i <= n,
            redirections_complete(words) == redirections_complete(words.skip(i as int)),
        decreases n - i,
    {
        let ghost rest = words.skip(i as int);
        assert(rest[0] == argv@[i as int]@);
        match redirect_kind_of(argv[i].as_str()) {
            Some(_) => {
                if i + 1 >= n {
                    return true;
                }
                if i + 2 >= n {
                    return false;
                }
                assert(rest.skip(3) =~= words.skip(i + 3));
                i = i + 3;
            },
            None => {
                assert(rest.skip(1) =~= words.skip(i + 1));
                i = i + 1;
            },
        }
    }
    assert(words.skip(i as int) =~= Seq::<Seq<char>>::empty());
    false
}

/// Takes the redirections out of the words of a command: the words kept as
/// the command and its arguments, and the redirections found, in order.
/// Where a sign is the last word, the redirections are those found before
/// it (see `has_dangling_redirection`).
pub fn split_redirections(argv: &Vec<String>) -> (res: (Vec<String>, Vec<Redirection>))
    ensures
        texts(res.0@) == scan_args(texts(argv@)),
        redirection_views(res.1@) == scan_redirections(texts(argv@)),
{
    let ghost words = texts(argv@);
    let n = argv.len();
    let mut args: Vec<String> = Vec::new();
    let mut redirections: Vec<Redirection> = Vec::new();
    let mut i: usize = 0;
    assert(words.skip(0) =~= words);
    while i < n
        invariant
            n == argv@.len(),
            words == texts(argv@),
            i <= n,
            scan_args(words) == texts(args@) + scan_args(words.skip(i as int)),
            scan_redirections(words) == redirection_views(redirections@) + scan_redirections(
                words.skip(i as int),
            ),
        decreases n - i,
    {
        let ghost rest = words.skip(i as int);
        let ghost args_before = args@;
        let ghost redirections_before = redirections@;
        assert(rest[0] == argv@[i as int]@);
        match redirect_kind_of(argv[i].as_str()) {
            Some(kind) => {
                if i + 1 >= n {
                    assert(words.skip(n as int) =~= Seq::<Seq<char>>::empty());
                    i = n;
                } else {
                    assert(rest[1] == argv@[i + 1]@);
                    redirections.push(Redirection { kind, target: argv[i + 1].clone() });
                    assert(redirection_views(redirections@) =~= redirection_views(
                        redirections_before,
                    ) + seq![(kind, rest[1])]);
                    if i + 2 < n {
                        assert(rest[2] == argv@[i + 2]@);
                        args.push(argv[i + 2].clone());
                        assert(texts(args@) =~= texts(args_before) + seq![rest[2]]);
                        assert(rest.skip(3) =~= words.skip(i + 3));
                        i = i + 3;
                    } else {
                        assert(words.skip(n as int) =~= Seq::<Seq<char>>::empty());
                        i = n;
                    }
                }
            },
            None => {
                args.push(argv[i].clone());
                assert(texts(args@) =~= texts(args_before) + seq![rest[0]]);
                assert(rest.skip(1) =~= words.skip(i + 1));
                i = i + 1;
            },
        }
    }
    assert(words.skip(i as int) =~= Seq::<Seq<char>>::empty());
    (args, redirections)
}


proof fn lemma_argv_of_words(groups: Seq<Seq<char>>)
    requires
        forall|i: int| 0 <= i < groups.len() ==> !(#[trigger] groups[i]).contains('"'),
    ensures
        forall|i: int|
            0 <= i < argv_of(groups).len() ==> (#[trigger] argv_of(groups)[i]).len() > 0
                && !argv_of(groups)[i].contains('"'),
    decreases groups.len(),
{
    if groups.len() > 0 {
        let k = groups.len() - 1;
        let front = groups.drop_last();
        assert forall|i: int| 0 <= i < front.len() implies !(#[trigger] front[i]).contains('"') by {
            assert(front[i] == groups[i]);
        }
        lemma_argv_of_words(front);
        let g = groups[k];
        let tail = if k % 2 == 0 {
            fields(g, ' ')
        } else if g.len() > 0 {
            seq![g]
        } else {
            seq![]
        };
        lemma_fields_pieces(g, ' ');
        let all = argv_of(groups);
        assert(all == argv_of(front) + tail);
        assert forall|i: int| 0 <= i < all.len() implies (#[trigger] all[i]).len() > 0
            && !all[i].contains('"') by {
            if i < argv_of(front).len() {
                assert(all[i] == argv_of(front)[i]);
            } else {
                assert(all[i] == tail[i - argv_of(front).len()]);
            }
        }
    }
}

/// Every word of a command line is non-empty and holds no `"`.
pub proof fn lemma_parse_argv_words(cmd_line: Seq<char>)
    ensures
        forall|i: int|
            0 <= i < parse_argv_spec(cmd_line).len() ==> (#[trigger] parse_argv_spec(
                cmd_line,
            )[i]).len() > 0 && !parse_argv_spec(cmd_line)[i].contains('"'),
{
    lemma_split_on_avoids(cmd_line, '"', '"');
    let groups = split_on(cmd_line, '"');
    assert forall|i: int| 0 <= i < groups.len() implies !(#[trigger] groups[i]).contains('"') by {
        if groups[i].contains('"') {
            let j = choose|j: int| 0 <= j < groups[i].len() && groups[i][j] == '"';
            assert(groups[i][j] != '"');
        }
    }
    lemma_argv_of_words(groups);
}

/// Taking the redirections out loses no word but the signs: each
/// redirection takes two words (the sign and its file), every other word
/// is kept.
pub proof fn lemma_scan_counts(words: Seq<Seq<char>>)
    requires
        redirections_complete(words),
    ensures
        scan_args(words).len() + 2 * scan_redirections(words).len() == words.len(),
    decreases words.len(),
{
    if words.len() > 0 {
        if redirect_kind(words[0]) is Some {
            if words.len() >= 3 {
                lemma_scan_counts(words.skip(3));
            }
        } else {
            lemma_scan_counts(words.skip(1));
        }
    }
}

/// Words with no redirection sign among them are all kept, in order, and
/// give no redirection.
pub proof fn lemma_scan_without_signs(words: Seq<Seq<char>>)
    requires
        forall|i: int| 0 <= i < words.len() ==> redirect_kind(#[trigger] words[i]) is None,
    ensures
        redirections_complete(words),
        scan_args(words) == words,
        scan_redirections(words) == Seq::<(RedirectKind, Seq<char>)>::empty(),
    decreases words.len(),
{
    if words.len() > 0 {
        let rest = words.skip(1);
        assert forall|i: int| 0 <= i < rest.len() implies redirect_kind(#[trigger] rest[i]) is None by {
            assert(rest[i] == words[i + 1]);
        }
        assert(redirect_kind(words[0]) is None);
        lemma_scan_without_signs(rest);
        assert(seq![words[0]] + rest =~= words);
    }
}

proof fn lemma_argv_of_update_first(groups: Seq<Seq<char>>, g: Seq<char>)
    requires
        groups.len() > 0,
        fields(g, ' ') == fields(groups[0], ' '),
    ensures
        argv_of(groups.update(0, g)) == argv_of(groups),
    decreases groups.len(),
{
    let u = groups.update(0, g);
    if groups.len() == 1 {
        assert(u.drop_last() =~= groups.drop_last());
    } else {
        lemma_argv_of_update_first(groups.drop_last(), g);
        assert(u.drop_last() =~= groups.drop_last().update(0, g));
        assert(u.last() == groups.last());
    }
}

proof fn lemma_no_quote_in_spaces(p: Seq<char>)
    requires
        forall|j: int| 0 <= j < p.len() ==> #[trigger] p[j] == ' ',
    ensures
        !p.contains('"'),
{
    if p.contains('"') {
        let j = choose|j: int| 0 <= j < p.len() && p[j] == '"';
        assert(p[j] == ' ');
    }
}

/// Spaces in front of a command line change none of its words.
pub proof fn lemma_parse_argv_space_prefix(p: Seq<char>, x: Seq<char>)
    requires
        forall|j: int| 0 <= j < p.len() ==> #[trigger] p[j] == ' ',
    ensures
        parse_argv_spec(p + x) == parse_argv_spec(x),
{
    lemma_no_quote_in_spaces(p);
    lemma_split_on_prefix(p, x, '"');
    lemma_split_on_len(x, '"');
    let groups = split_on(x, '"');
    lemma_fields_sep_prefix(p, groups[0], ' ');
    lemma_argv_of_update_first(groups, p + groups[0]);
}

/// Spaces at the end of a command line whose quotes are balanced (it
/// splits at `"` into an odd number of pieces) change none of its words.
pub proof fn lemma_parse_argv_space_suffix(x: Seq<char>, p: Seq<char>)
    requires
        forall|j: int| 0 <= j < p.len() ==> #[trigger] p[j] == ' ',
        split_on(x, '"').len() % 2 == 1,
    ensures
        parse_argv_spec(x + p) == parse_argv_spec(x),
{
    lemma_no_quote_in_spaces(p);
    lemma_split_on_suffix(x, p, '"');
    let groups = split_on(x, '"');
    let u = groups.update(groups.len() - 1, groups.last() + p);
    lemma_fields_sep_suffix(groups.last(), p, ' ');
    assert(u.drop_last() =~= groups.drop_last());
    assert(u.last() == groups.last() + p);
}

/// A text between two quotes is one word, and the text on either side is
/// split at spaces: for `a "q" b` with no quote in `a`, `q` or `b`, the
/// words are those of `a`, then `q` (if not empty), then those of `b`.
pub proof fn lemma_parse_argv_quoted(a: Seq<char>, q: Seq<char>, b: Seq<char>)
    requires
        !a.contains('"'),
        !q.contains('"'),
        !b.contains('"'),
    ensures
        parse_argv_spec(a + seq!['"'] + q + seq!['"'] + b) == fields(a, ' ') + (if q.len() > 0 {
            seq![q]
        } else {
            seq![]
        }) + fields(b, ' '),
{
    assert forall|j: int| 0 <= j < a.len() implies #[trigger] a[j] != '"' by {
        if a[j] == '"' {
            assert(a.contains('"'));
        }
    }
    assert forall|j: int| 0 <= j < q.len() implies #[trigger] q[j] != '"' by {
        if q[j] == '"' {
            assert(q.contains('"'));
        }
    }
    assert forall|j: int| 0 <= j < b.len() implies #[trigger] b[j] != '"' by {
        if b[j] == '"' {
            assert(b.contains('"'));
        }
    }
    crate::text::lemma_split_on_single(a, '"');
    crate::text::lemma_split_on_single(q, '"');
    crate::text::lemma_split_on_single(b, '"');
    crate::text::lemma_split_on_join(q, b, '"');
    crate::text::lemma_split_on_join(a, q + seq!['"'] + b, '"');
    let line = a + seq!['"'] + q + seq!['"'] + b;
    assert(line =~= a + seq!['"'] + (q + seq!['"'] + b));
    let groups = split_on(line, '"');
    assert(groups =~= seq![a, q, b]);
    assert(groups.drop_last() =~= seq![a, q]);
    assert(seq![a, q].drop_last() =~= seq![a]);
    assert(seq![a].drop_last() =~= Seq::<Seq<char>>::empty());
    let mid = if q.len() > 0 {
        seq![q]
    } else {
        Seq::<Seq<char>>::empty()
    };
    assert(argv_of(Seq::<Seq<char>>::empty()) == Seq::<Seq<char>>::empty());
    assert(seq![a][0] == a);
    assert(argv_of(seq![a]) == argv_of(seq![a].drop_last()) + fields(a, ' '));
    assert(argv_of(seq![a]) =~= fields(a, ' '));
    assert(argv_of(seq![a, q]) =~= fields(a, ' ') + mid);
}

/// A line with no quote splits at spaces into its non-empty words.
pub proof fn lemma_parse_argv_unquoted(s: Seq<char>)
    requires
        !s.contains('"'),
    ensures
        parse_argv_spec(s) == fields(s, ' '),
{
    assert forall|j: int| 0 <= j < s.len() implies #[trigger] s[j] != '"' by {
        if s[j] == '"' {
            assert(s.contains('"'));
        }
    }
    crate::text::lemma_split_on_single(s, '"');
    assert(seq![s].drop_last() =~= Seq::<Seq<char>>::empty());
    assert(argv_of(Seq::<Seq<char>>::empty()) == Seq::<Seq<char>>::empty());
    assert(seq![s][0] == s);
    assert(argv_of(seq![s]) == argv_of(seq![s].drop_last()) + fields(s, ' '));
    assert(argv_of(seq![s]) =~= fields(s, ' '));
}

/// `>` sends the output to the file named after it, `<` reads the input
/// from it; the word after the file is kept as an argument without being
/// looked at, and the scan goes on after it.
pub proof fn lemma_redirection_signs(file: Seq<char>, next: Seq<char>, rest: Seq<Seq<char>>)
    ensures
        scan_redirections(seq![seq!['>'], file, next] + rest) == seq![(RedirectKind::Output, file)]
            + scan_redirections(rest),
        scan_redirections(seq![seq!['<'], file, next] + rest) == seq![(RedirectKind::Input, file)]
            + scan_redirections(rest),
        scan_args(seq![seq!['>'], file, next] + rest) == seq![next] + scan_args(rest),
        scan_args(seq![seq!['<'], file, next] + rest) == seq![next] + scan_args(rest),
        redirections_complete(seq![seq!['>'], file, next] + rest) == redirections_complete(rest),
        scan_redirections(seq![seq!['>'], file]) == seq![(RedirectKind::Output, file)],
        scan_redirections(seq![seq!['<'], file]) == seq![(RedirectKind::Input, file)],
        !redirections_complete(seq![seq!['>']]),
        !redirections_complete(seq![seq!['<']]),
{
    let w1 = seq![seq!['>'], file, next] + rest;
    let w2 = seq![seq!['<'], file, next] + rest;
    assert(w1.skip(3) =~= rest);
    assert(w2.skip(3) =~= rest);
    assert(w1[0] == seq!['>'] && w1[1] == file && w1[2] == next);
    assert(w2[0] == seq!['<'] && w2[1] == file && w2[2] == next);
    assert(seq!['<'] != seq!['>']) by {
        assert(seq!['<'][0] != seq!['>'][0]);
    }
}

/// A word that is not a sign is kept, in its place, and the scan goes on
/// with the next word.
pub proof fn lemma_plain_word_kept(word: Seq<char>, rest: Seq<Seq<char>>)
    requires
        word != seq!['>'],
        word != seq!['<'],
    ensures
        scan_args(seq![word] + rest) == seq![word] + scan_args(rest),
        scan_redirections(seq![word] + rest) == scan_redirections(rest),
        redirections_complete(seq![word] + rest) == redirections_complete(rest),
{
    let w = seq![word] + rest;
    assert(w.skip(1) =~= rest);
    assert(w[0] == word);
}

} // verus!

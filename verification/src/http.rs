//! The decisions of the small web server: which file a request asks for,
//! and whether it gets the greeting page, a refusal, or the file.

use vstd::prelude::*;
use crate::text::{chars_of, fields, same_text, split_all, split_nonempty, split_on, texts};
use vstd::string::StringExecFns;

verus! {

/// The path that a request line asks for, made relative to the current
/// directory: `.` followed by the text between the first and the second
/// space. A request with fewer than two spaces asks for nothing.
pub open spec fn request_path_spec(request: Seq<char>) -> Option<Seq<char>> {
    let parts = split_on(request, ' ');
    if parts.len() > 2 {
        Some(seq!['.'] + parts[1])
    } else {
        None
    }
}

/// Whatever the method (the first word) is, a request line with two
/// spaces asks for `.` followed by the word between them; a line with fewer
/// spaces asks for nothing.
pub proof fn lemma_request_path_any_method(method: Seq<char>, path: Seq<char>, rest: Seq<char>)
    requires
        !method.contains(' '),
        !path.contains(' '),
    ensures
        request_path_spec(method + seq![' '] + path + seq![' '] + rest) == Some(seq!['.'] + path),
        request_path_spec(method) is None,
        request_path_spec(method + seq![' '] + path) is None,
{
    assert forall|j: int| 0 <= j < method.len() implies #[trigger] method[j] != ' ' by {
        if method[j] == ' ' {
            assert(method.contains(' '));
        }
    }
    assert forall|j: int| 0 <= j < path.len() implies #[trigger] path[j] != ' ' by {
        if path[j] == ' ' {
            assert(path.contains(' '));
        }
    }
    crate::text::lemma_split_on_single(method, ' ');
    crate::text::lemma_split_on_single(path, ' ');
    crate::text::lemma_split_on_join(path, rest, ' ');
    crate::text::lemma_split_on_join(method, path + seq![' '] + rest, ' ');
    crate::text::lemma_split_on_join(method, path, ' ');
    crate::text::lemma_split_on_len(rest, ' ');
    assert(method + seq![' '] + path + seq![' '] + rest =~= method + seq![' '] + (path + seq![' ']
        + rest));
    let parts = split_on(method + seq![' '] + path + seq![' '] + rest, ' ');
    assert(parts =~= seq![method] + (seq![path] + split_on(rest, ' ')));
    assert(parts[1] == path);
    assert(split_on(method + seq![' '] + path, ' ') =~= seq![method, path]);
}

/// The path that a request asks for (see `request_path_spec`).
pub fn request_path(request: &str) -> (path: Option<String>)
    ensures
        opt_text(path) == request_path_spec(request@),
{
    let parts = split_all(request, ' ');
    if parts.len() > 2 {
        assert(parts@[1]@ == texts(parts@)[1]);
        let path = ".".to_owned().concat(parts[1].as_str());
        proof {
            reveal_strlit(".");
        }
        Some(path)
    } else {
        None
    }
}

/// The text that an optional string holds.
pub open spec fn opt_text(o: Option<String>) -> Option<Seq<char>> {
    match o {
        Some(s) => Some(s@),
        None => None,
    }
}

/// How the server answers a request.
#[derive(Clone, Copy, Debug, PartialEq, Eq, Structural)]
pub enum Route {
    /// The greeting page, with the visitor count.
    Greeting,
    /// A 403 page.
    Forbidden,
    /// The file itself.
    ServeFile,
}

/// Whether `p` holds the step `/../`.
pub open spec fn has_parent_step(p: Seq<char>) -> bool {
    exists|i: int| 0 <= i && i + 4 <= p.len() && #[trigger] p.subrange(i, i + 4) == seq!['/', '.', '.', '/']
}

/// The answer to a request for `path`, whose extension is `ext`: a path
/// that names nothing, or a directory, gets the greeting page; otherwise a
/// path with a `/../` step, or whose extension is not `html`, is refused;
/// the rest is served.
pub open spec fn route_spec(path: Seq<char>, ext: Option<Seq<char>>, found: bool, is_dir: bool) -> Route {
    if !found || is_dir {
        Route::Greeting
    } else if has_parent_step(path) || ext != Some(seq!['h', 't', 'm', 'l']) {
        Route::Forbidden
    } else {
        Route::ServeFile
    }
}

/// Only files are served, and only those whose extension is exactly
/// `html` and whose path has no `/../` step; a path that names nothing or
/// a directory gets the greeting page; every other file is refused.
pub proof fn lemma_route_serves_only_html(path: Seq<char>, ext: Option<Seq<char>>, found: bool, is_dir: bool)
    ensures
        route_spec(path, ext, found, is_dir) == Route::Greeting <==> (!found || is_dir),
        route_spec(path, ext, found, is_dir) == Route::ServeFile <==> found && !is_dir && ext
            == Some(seq!['h', 't', 'm', 'l']) && forall|i: int|
            0 <= i && i + 4 <= path.len() ==> #[trigger] path.subrange(i, i + 4) != seq![
                '/',
                '.',
                '.',
                '/',
            ],
        route_spec(path, ext, found, is_dir) == Route::Forbidden <==> found && !is_dir && (ext
            != Some(seq!['h', 't', 'm', 'l']) || exists|i: int|
            0 <= i && i + 4 <= path.len() && #[trigger] path.subrange(i, i + 4) == seq![
                '/',
                '.',
                '.',
                '/',
            ]),
{
}

/// Whether `path` holds the step `/../`.
pub fn contains_parent_step(path: &str) -> (b: bool)
    ensures
        b == has_parent_step(path@),
{
    let cs = chars_of(path);
    let n = cs.len();
    let mut i: usize = 0;
    while i < n && n - i >= 4
        invariant
            i <= n,
            n == cs@.len(),
            cs@ == path@,
            forall|j: int| 0 <= j < i && j + 4 <= n ==> #[trigger] cs@.subrange(j, j + 4) != seq![
                '/',
                '.',
                '.',
                '/',
            ],
        decreases n - i,
    {
        if cs[i] == '/' && cs[i + 1] == '.' && cs[i + 2] == '.' && cs[i + 3] == '/' {
            assert(cs@.subrange(i as int, i + 4) =~= seq!['/', '.', '.', '/']);
            return true;
        }
        assert(cs@.subrange(i as int, i + 4)[0] == cs@[i as int]);
        assert(cs@.subrange(i as int, i + 4)[1] == cs@[i + 1]);
        assert(cs@.subrange(i as int, i + 4)[2] == cs@[i + 2]);
        assert(cs@.subrange(i as int, i + 4)[3] == cs@[i + 3]);
        i = i + 1;
    }
    false
}

/// The components of a path after one more component `c`, folded as a
/// path is resolved: `.` changes nothing, `..` takes off the last component
/// (nothing at the root), any other component is added.
pub open spec fn fold_step(stack: Seq<Seq<char>>, c: Seq<char>) -> Seq<Seq<char>> {
    if c == seq!['.'] {
        stack
    } else if c == seq!['.', '.'] {
        if stack.len() > 0 {
            stack.drop_last()
        } else {
            stack
        }
    } else {
        stack.push(c)
    }
}

/// The components `comps`, read from the root, folded one by one (see
/// `fold_step`).
pub open spec fn fold_components(comps: Seq<Seq<char>>) -> Seq<Seq<char>>
    decreases comps.len(),
{
    if comps.len() == 0 {
        seq![]
    } else {
        fold_step(fold_components(comps.drop_last()), comps.last())
    }
}

/// The components of the absolute path that `path` names from the
/// directory `cwd`: the non-empty pieces between `/` of both, folded from
/// the root. This is how the path is resolved: by its text, without asking
/// the file system.
pub open spec fn resolve_spec(cwd: Seq<char>, path: Seq<char>) -> Seq<Seq<char>> {
    fold_components(fields(cwd, '/') + fields(path, '/'))
}

/// The components, each after a `/`.
pub open spec fn slash_join(comps: Seq<Seq<char>>) -> Seq<char>
    decreases comps.len(),
{
    if comps.len() == 0 {
        seq![]
    } else {
        slash_join(comps.drop_last()) + seq!['/'] + comps.last()
    }
}

/// The text of the absolute path with components `comps`: `/` for none.
pub open spec fn absolute_text(comps: Seq<Seq<char>>) -> Seq<char> {
    if comps.len() == 0 {
        seq!['/']
    } else {
        slash_join(comps)
    }
}

/// The position of the last `.` in `name`, if any.
pub open spec fn last_dot(name: Seq<char>) -> Option<int>
    decreases name.len(),
{
    if name.len() == 0 {
        None
    } else if name.last() == '.' {
        Some(name.len() - 1)
    } else {
        last_dot(name.drop_last())
    }
}

/// The extension of a file name: none if it holds no `.`, or if its only
/// `.` is its first character; otherwise the text after the last `.`.
pub open spec fn name_extension(name: Seq<char>) -> Option<Seq<char>> {
    match last_dot(name) {
        Some(k) => if k > 0 {
            Some(name.skip(k + 1))
        } else {
            None
        },
        None => None,
    }
}

/// The extension of the file that `path` names from the directory `cwd`:
/// that of the last component of the resolved path; none at the root.
pub open spec fn resolved_extension(cwd: Seq<char>, path: Seq<char>) -> Option<Seq<char>> {
    let comps = resolve_spec(cwd, path);
    if comps.len() > 0 {
        name_extension(comps.last())
    } else {
        None
    }
}

proof fn lemma_last_dot(name: Seq<char>, k: int)
    requires
        0 <= k <= name.len(),
        forall|m: int| k <= m < name.len() ==> #[trigger] name[m] != '.',
        k > 0 ==> name[k - 1] == '.',
    ensures
        last_dot(name) == if k == 0 {
            None
        } else {
            Some(k - 1)
        },
    decreases name.len() - k,
{
    if k < name.len() {
        let front = name.drop_last();
        assert(name.last() == name[name.len() - 1]);
        assert forall|m: int| k <= m < front.len() implies #[trigger] front[m] != '.' by {
            assert(front[m] == name[m]);
        }
        if k > 0 {
            assert(front[k - 1] == name[k - 1]);
        }
        lemma_last_dot(front, k);
    } else if k > 0 {
        assert(name.last() == name[k - 1]);
    }
}

/// The extension of a file name (see `name_extension`).
pub fn name_extension_of(name: &str) -> (ext: Option<String>)
    ensures
        opt_text(ext) == name_extension(name@),
{
    let cs = chars_of(name);
    let n = cs.len();
    let mut k = n;
    while k > 0 && cs[k - 1] != '.'
        invariant
            k <= n,
            n == cs@.len(),
            cs@ == name@,
            forall|m: int| k <= m < n ==> #[trigger] cs@[m] != '.',
        decreases k,
    {
        k = k - 1;
    }
    proof {
        lemma_last_dot(name@, k as int);
    }
    if k <= 1 {
        None
    } else {
        let e = name.substring_char(k, n).to_owned();
        assert(e@ =~= name@.skip(k as int));
        Some(e)
    }
}

/// The components of the absolute path that `path` names from the
/// directory `cwd` (see `resolve_spec`).
pub fn resolve(cwd: &str, path: &str) -> (comps: Vec<String>)
    ensures
        texts(comps@) == resolve_spec(cwd@, path@),
{
    proof {
        reveal_strlit(".");
        reveal_strlit("..");
        assert("."@ =~= seq!['.']);
        assert(".."@ =~= seq!['.', '.']);
    }
    let mut all = split_nonempty(cwd, '/');
    let mut rest = split_nonempty(path, '/');
    let ghost first = all@;
    let ghost second = rest@;
    all.append(&mut rest);
    let ghost cs = texts(all@);
    assert(cs =~= fields(cwd@, '/') + fields(path@, '/')) by {
        assert(texts(all@) =~= texts(first) + texts(second));
    }
    let mut stack: Vec<String> = Vec::new();
    assert(cs.take(0) =~= Seq::<Seq<char>>::empty());
    assert(texts(stack@) =~= Seq::<Seq<char>>::empty());
    for i in 0..all.len()
        invariant
            cs == texts(all@),
            "."@ == seq!['.'],
            ".."@ == seq!['.', '.'],
            texts(stack@) == fold_components(cs.take(i as int)),
    {
        assert(cs.take(i + 1).drop_last() =~= cs.take(i as int));
        assert(cs.take(i + 1).last() == all@[i as int]@);
        let ghost before = stack@;
        if same_text(all[i].as_str(), ".") {
        } else if same_text(all[i].as_str(), "..") {
            if stack.len() > 0 {
                stack.pop();
                assert(texts(stack@) =~= texts(before).drop_last());
            }
        } else {
            stack.push(all[i].clone());
            assert(texts(stack@) =~= texts(before).push(all@[i as int]@));
        }
    }
    assert(cs.take(all.len() as int) =~= cs);
    stack
}

/// The text of the absolute path with components `comps` (see
/// `absolute_text`).
pub fn absolute_path_text(comps: &Vec<String>) -> (t: String)
    ensures
        t@ == absolute_text(texts(comps@)),
{
    proof {
        reveal_strlit("/");
        assert("/"@ =~= seq!['/']);
    }
    if comps.len() == 0 {
        return "/".to_owned();
    }
    let ghost cs = texts(comps@);
    let mut t = String::new();
    assert(cs.take(0) =~= Seq::<Seq<char>>::empty());
    assert(t@ =~= slash_join(cs.take(0)));
    for i in 0..comps.len()
        invariant
            cs == texts(comps@),
            "/"@ == seq!['/'],
            t@ == slash_join(cs.take(i as int)),
    {
        assert(cs.take(i + 1).drop_last() =~= cs.take(i as int));
        assert(cs.take(i + 1).last() == comps@[i as int]@);
        t.append("/");
        t.append(comps[i].as_str());
    }
    assert(cs.take(comps.len() as int) =~= cs);
    t
}

/// The answer to a request for `path`, given the path's extension and
/// what the file system says of it (see `route_spec`).
pub fn route_for(path: &str, ext: &Option<String>, found: bool, is_dir: bool) -> (r: Route)
    ensures
        r == route_spec(path@, opt_text(*ext), found, is_dir),
{
    if !found || is_dir {
        return Route::Greeting;
    }
    let is_html = match ext {
        Some(e) => {
            proof {
                reveal_strlit("html");
                assert("html"@ =~= seq!['h', 't', 'm', 'l']);
            }
            let b = same_text(e.as_str(), "html");
            assert(b == (e@ == seq!['h', 't', 'm', 'l']));
            b
        },
        None => false,
    };
    if contains_parent_step(path) || !is_html {
        Route::Forbidden
    } else {
        Route::ServeFile
    }
}

/// The answer to a request for `path`, made from the directory `cwd`: the
/// extension is that of the resolved path's last component.
pub fn route(path: &str, cwd: &str, found: bool, is_dir: bool) -> (r: Route)
    ensures
        r == route_spec(path@, resolved_extension(cwd@, path@), found, is_dir),
{
    let comps = resolve(cwd, path);
    let ext = if comps.len() > 0 {
        name_extension_of(comps[comps.len() - 1].as_str())
    } else {
        None
    };
    route_for(path, &ext, found, is_dir)
}

/// Resolving goes component by component: `.` changes nothing, `..` goes
/// up one level (not above the root), and any other component goes down
/// into it.
pub proof fn lemma_fold_components_steps(comps: Seq<Seq<char>>, c: Seq<char>)
    ensures
        c == seq!['.'] ==> fold_components(comps.push(c)) == fold_components(comps),
        c == seq!['.', '.'] && fold_components(comps).len() > 0 ==> fold_components(comps.push(c))
            == fold_components(comps).drop_last(),
        c == seq!['.', '.'] && fold_components(comps).len() == 0 ==> fold_components(comps.push(c))
            == fold_components(comps),
        c != seq!['.'] && c != seq!['.', '.'] ==> fold_components(comps.push(c)) == fold_components(
            comps,
        ).push(c),
{
    assert(comps.push(c).drop_last() =~= comps);
    assert(comps.push(c).last() == c);
    assert(seq!['.', '.'].len() != seq!['.'].len());
}

/// The extension of a file name is the text after its last `.`, unless
/// that `.` is the name's first character; a name with no `.` has none.
pub proof fn lemma_name_extension(stem: Seq<char>, ext: Seq<char>)
    requires
        !ext.contains('.'),
    ensures
        stem.len() > 0 ==> name_extension(stem + seq!['.'] + ext) == Some(ext),
        stem.len() == 0 ==> name_extension(stem + seq!['.'] + ext) is None,
        name_extension(ext) is None,
{
    let name = stem + seq!['.'] + ext;
    assert forall|m: int| stem.len() + 1 <= m < name.len() implies #[trigger] name[m] != '.' by {
        assert(name[m] == ext[m - stem.len() - 1]);
        if ext[m - stem.len() - 1] == '.' {
            assert(ext.contains('.'));
        }
    }
    assert(name[stem.len() as int] == '.');
    lemma_last_dot(name, stem.len() + 1 as int);
    assert(name.skip(stem.len() + 1 as int) =~= ext);
    assert forall|m: int| 0 <= m < ext.len() implies #[trigger] ext[m] != '.' by {
        if ext[m] == '.' {
            assert(ext.contains('.'));
        }
    }
    lemma_last_dot(ext, 0);
}

/// The text of an absolute path: `/` for the root, otherwise each
/// component after a `/`, in order.
pub proof fn lemma_absolute_text(comps: Seq<Seq<char>>, c: Seq<char>)
    ensures
        absolute_text(Seq::<Seq<char>>::empty()) == seq!['/'],
        absolute_text(seq![c]) == seq!['/'] + c,
        comps.len() > 0 ==> absolute_text(comps.push(c)) == absolute_text(comps) + seq!['/'] + c,
{
    assert(seq![c].drop_last() =~= Seq::<Seq<char>>::empty());
    assert(slash_join(Seq::<Seq<char>>::empty()) == Seq::<char>::empty());
    assert(Seq::<char>::empty() + seq!['/'] + c =~= seq!['/'] + c);
    assert(comps.push(c).drop_last() =~= comps);
}

proof fn lemma_fold_plain(c: Seq<Seq<char>>, d: Seq<Seq<char>>)
    requires
        forall|j: int| 0 <= j < d.len() ==> #[trigger] d[j] != seq!['.'] && d[j] != seq!['.', '.'],
    ensures
        fold_components(c + d) == fold_components(c) + d,
    decreases d.len(),
{
    if d.len() == 0 {
        assert(c + d =~= c);
        assert(fold_components(c) + d =~= fold_components(c));
    } else {
        let d1 = d.drop_last();
        assert forall|j: int| 0 <= j < d1.len() implies #[trigger] d1[j] != seq!['.'] && d1[j]
            != seq!['.', '.'] by {
            assert(d1[j] == d[j]);
        }
        lemma_fold_plain(c, d1);
        assert((c + d).drop_last() =~= c + d1);
        assert((c + d).last() == d[d.len() - 1]);
        assert(fold_components(c) + d =~= (fold_components(c) + d1).push(d.last()));
    }
}

/// A path whose components are all names (no `.` or `..`) goes down from
/// the directory into those components, in order; its extension is that of
/// its last component.
pub proof fn lemma_resolve_plain_path(cwd: Seq<char>, path: Seq<char>)
    requires
        forall|j: int|
            0 <= j < fields(path, '/').len() ==> #[trigger] fields(path, '/')[j] != seq!['.']
                && fields(path, '/')[j] != seq!['.', '.'],
    ensures
        resolve_spec(cwd, path) == fold_components(fields(cwd, '/')) + fields(path, '/'),
        fields(path, '/').len() > 0 ==> resolved_extension(cwd, path) == name_extension(
            fields(path, '/').last(),
        ),
{
    lemma_fold_plain(fields(cwd, '/'), fields(path, '/'));
}

} // verus!

//! What the probes of `git` mean: names and keys of repositories, and how a change
//! of directory is reported.
use vstd::prelude::*;
use vstd::utf8::encode_utf8;
use crate::text::str_view;
use crate::{chars, hash, text};

verus! {

/// What a probe says: its output without the outer whitespace, where it succeeded.
pub fn probe_text(success: bool, stdout: &str) -> (r: Option<String>)
    ensures
        match r {
            Some(t) => success && t@ == chars::trim(stdout@),
            None => !success,
        },
{
    if success {
        let v = text::chars_of(stdout);
        Some(text::string_of(text::trim(&v)))
    } else {
        None
    }
}

/// The branch that a probe reports; a detached head reports `HEAD`, which is no
/// branch.
pub fn current_branch(probe: Option<&str>) -> (r: Option<String>)
    ensures
        match r {
            Some(b) => probe matches Some(p) && b@ == p@ && p@.len() > 0 && p@ != "HEAD"@,
            None => probe matches Some(p) ==> p@.len() == 0 || p@ == "HEAD"@,
        },
{
    match probe {
        Some(p) => if p.unicode_len() == 0 || text::eq(p, "HEAD") {
            None
        } else {
            Some(p.to_owned())
        },
        None => None,
    }
}

/// `s` without `p` in front.
pub open spec fn after(s: Seq<char>, p: Seq<char>) -> Seq<char> {
    s.skip(p.len() as int)
}

/// `s` without `p` at its end, if it ends in `p`.
pub open spec fn without_end(s: Seq<char>, p: Seq<char>) -> Seq<char> {
    if chars::ends_with(s, p) {
        s.take(s.len() - p.len())
    } else {
        s
    }
}

/// What follows the host in the address of a GitHub remote.
pub open spec fn github_path(url: Seq<char>) -> Option<Seq<char>> {
    if chars::starts_with(url, "git@github.com:"@) {
        Some(after(url, "git@github.com:"@))
    } else if chars::starts_with(url, "ssh://git@github.com/"@) {
        Some(after(url, "ssh://git@github.com/"@))
    } else if chars::starts_with(url, "https://github.com/"@) {
        Some(after(url, "https://github.com/"@))
    } else if chars::starts_with(url, "http://github.com/"@) {
        Some(after(url, "http://github.com/"@))
    } else {
        None
    }
}

/// The `owner/repo` of a GitHub remote, if the address is one.
pub open spec fn remote_name(url: Seq<char>) -> Option<Seq<char>> {
    match github_path(chars::trim(url)) {
        Some(path) => {
            let p = without_end(without_end(path, "/"@), ".git"@);
            let i = chars::find_char(p, '/');
            if 0 < i && i + 1 < p.len() {
                Some(p)
            } else {
                None
            }
        },
        None => None,
    }
}

/// What stands in `v` behind `p`, if `v` begins with `p`.
fn strip<'a>(v: &'a [char], p: &str) -> (r: Option<&'a [char]>)
    ensures
        match r {
            Some(t) => chars::starts_with(v@, p@) && t@ == after(v@, p@),
            None => !chars::starts_with(v@, p@),
        },
{
    if text::starts_with(v, p) {
        let n: usize = p.unicode_len();
        Some(text::from(v, n))
    } else {
        None
    }
}

/// `v` without `p` at its end.
fn strip_end<'a>(v: &'a [char], p: &str) -> (r: &'a [char])
    ensures
        r@ == without_end(v@, p@),
{
    if text::ends_with(v, p) {
        let n: usize = p.unicode_len();
        text::upto(v, v.len() - n)
    } else {
        v
    }
}

/// What follows the host in the address of a GitHub remote.
fn path_of(url: &[char]) -> (r: Option<&[char]>)
    ensures
        match r {
            Some(t) => github_path(url@) == Some(t@),
            None => github_path(url@) is None,
        },
{
    if let Some(t) = strip(url, "git@github.com:") {
        return Some(t);
    }
    if let Some(t) = strip(url, "ssh://git@github.com/") {
        return Some(t);
    }
    if let Some(t) = strip(url, "https://github.com/") {
        return Some(t);
    }
    strip(url, "http://github.com/")
}

/// The readable name `owner/repo` of a GitHub remote.
pub fn repo_name_from_remote(url: &str) -> (r: Option<String>)
    ensures
        match r {
            Some(n) => remote_name(url@) == Some(n@),
            None => remote_name(url@) is None,
        },
{
    let v = text::chars_of(url);
    match path_of(text::trim(&v)) {
        Some(path) => {
            let p = strip_end(strip_end(path, "/"), ".git");
            let i = text::find_char(p, '/');
            if 0 < i && i < p.len() && p.len() - i > 1 {
                Some(text::string_of(p))
            } else {
                None
            }
        },
        None => None,
    }
}

/// Whether `c` may stand in a key.
pub open spec fn key_char(c: char) -> bool {
    chars::is_digit(c) || chars::is_ascii_alpha(c) || c == '-' || c == '_' || c == '.'
}

/// What becomes of `c` in a key.
pub open spec fn key_text(c: char) -> Seq<char> {
    if c == '/' {
        seq!['-', '-']
    } else if key_char(c) {
        seq![c]
    } else {
        seq!['-']
    }
}

/// `s` as a key that is safe in paths and branch names.
pub open spec fn safe_key(s: Seq<char>) -> Seq<char>
    decreases s.len(),
{
    if s.len() == 0 {
        seq![]
    } else {
        safe_key(s.drop_last()) + key_text(s.last())
    }
}

/// A key holds safe characters only.
pub proof fn keys_are_safe(s: Seq<char>)
    ensures
        forall|i: int| 0 <= i < safe_key(s).len() ==> key_char(#[trigger] safe_key(s)[i]),
    decreases s.len(),
{
    if s.len() > 0 {
        keys_are_safe(s.drop_last());
        let head = safe_key(s.drop_last());
        assert forall|i: int| 0 <= i < safe_key(s).len() implies key_char(
            #[trigger] safe_key(s)[i],
        ) by {
            if i < head.len() {
                assert(safe_key(s)[i] == head[i]);
            }
        }
    }
}

/// A text of safe characters is its own key, so making a key of a key changes
/// nothing.
pub proof fn safe_text_is_its_key(s: Seq<char>)
    requires
        forall|i: int| 0 <= i < s.len() ==> key_char(#[trigger] s[i]),
    ensures
        safe_key(s) == s,
    decreases s.len(),
{
    if s.len() > 0 {
        assert forall|i: int| 0 <= i < s.drop_last().len() implies key_char(
            #[trigger] s.drop_last()[i],
        ) by {
            assert(s.drop_last()[i] == s[i]);
        }
        safe_text_is_its_key(s.drop_last());
        assert(key_char(s.last()));
        assert(s =~= s.drop_last() + seq![s.last()]);
    } else {
        assert(safe_key(s) =~= s);
    }
}

/// Makes a key of `s`: a slash becomes two hyphens, any other unsafe character one.
pub fn sanitize_repo_key(s: &str) -> (r: String)
    ensures
        r@ == safe_key(s@),
{
    let v = text::chars_of(s);
    let mut out = String::new();
    let mut i: usize = 0;
    assert(v@.take(0) =~= Seq::<char>::empty());
    while i < v.len()
        invariant
            i <= v@.len(),
            out@ == safe_key(v@.take(i as int)),
        decreases v@.len() - i,
    {
        let c = v[i];
        assert(v@.take(i + 1).drop_last() =~= v@.take(i as int));
        if c == '/' {
            out.push('-');
            out.push('-');
        } else if text::is_digit(c) || text::is_ascii_alpha(c) || c == '-' || c == '_' || c == '.' {
            out.push(c);
        } else {
            out.push('-');
        }
        assert(out@ =~= safe_key(v@.take(i + 1)));
        i += 1;
    }
    assert(v@.take(i as int) =~= v@);
    out
}

/// The key `owner--repo` of a GitHub remote.
pub fn repo_key_from_remote(url: &str) -> (r: Option<String>)
    ensures
        match r {
            Some(k) => remote_name(url@) matches Some(n) && k@ == safe_key(n),
            None => remote_name(url@) is None,
        },
{
    match repo_name_from_remote(url) {
        Some(n) => Some(sanitize_repo_key(n.as_str())),
        None => None,
    }
}

/// Whether a piece of a path names something: it is not empty and not `.`.
pub open spec fn named_piece(p: Seq<char>) -> bool {
    p.len() > 0 && p != "."@
}

/// The last piece that names something.
pub open spec fn last_piece(pieces: Seq<Seq<char>>) -> Option<Seq<char>>
    decreases pieces.len(),
{
    if pieces.len() == 0 {
        None
    } else if named_piece(pieces.last()) {
        Some(pieces.last())
    } else {
        last_piece(pieces.drop_last())
    }
}

/// The name of the file or directory at the end of a path; a path that ends in `..`,
/// and the root, have none.
pub open spec fn base_name(path: Seq<char>) -> Option<Seq<char>> {
    match last_piece(chars::split(path, '/')) {
        Some(p) => if p == ".."@ {
            None
        } else {
            Some(p)
        },
        None => None,
    }
}

/// The name at the end of a path.
pub fn file_name(path: &str) -> (r: Option<String>)
    ensures
        match r {
            Some(n) => base_name(path@) == Some(n@),
            None => base_name(path@) is None,
        },
{
    let v = text::chars_of(path);
    let pieces = text::split(&v, '/');
    let mut i: usize = pieces.len();
    let ghost all = text::views(pieces@);
    assert(all.take(i as int) =~= all);
    while i > 0
        invariant
            i <= pieces@.len(),
            all == text::views(pieces@),
            all == chars::split(path@, '/'),
            last_piece(all) == last_piece(all.take(i as int)),
        decreases i,
    {
        i -= 1;
        assert(all.take(i + 1).drop_last() =~= all.take(i as int));
        assert(all.take(i + 1).last() == pieces@[i as int]@);
        if pieces[i].len() > 0 && !text::is(&pieces[i], ".") {
            return if text::is(&pieces[i], "..") {
                None
            } else {
                Some(text::string_of(&pieces[i]))
            };
        }
    }
    assert(last_piece(all.take(0)) is None);
    None
}

/// The key of a repository without a GitHub remote: the name of its directory, and
/// the low half of the hash of its path in hexadecimal.
pub open spec fn path_key(src: Seq<char>) -> Seq<char> {
    safe_key(
        match base_name(src) {
            Some(b) => b,
            None => "repo"@,
        },
    ) + "-"@ + chars::zero_pad(
        chars::hex((hash::fnv(encode_utf8(src)) as int % 0x1_0000_0000) as nat),
        8,
    )
}

/// The key of the repository at `src`, from its path alone.
pub fn fallback_repo_key(src: &str) -> (r: String)
    ensures
        r@ == path_key(src@),
{
    let base = match file_name(src) {
        Some(b) => b,
        None => "repo".to_owned(),
    };
    let h = hash::fnv1a(src.as_bytes());
    let mut out = sanitize_repo_key(base.as_str());
    out.push_str("-");
    text::push_chars(&mut out, &text::hex_padded(h % 0x1_0000_0000, 8));
    out
}

/// The key of the repository at `src`, given the address of its remote if it has
/// one.
pub fn repo_key(src: &str, origin: Option<&str>) -> (r: String)
    ensures
        r@ == (match origin {
            Some(url) => match remote_name(url@) {
                Some(n) => safe_key(n),
                None => path_key(src@),
            },
            None => path_key(src@),
        }),
{
    if let Some(url) = origin {
        if let Some(k) = repo_key_from_remote(url) {
            return k;
        }
    }
    fallback_repo_key(src)
}

/// The readable name of a repository, given the address of its remote and its top
/// directory, as far as they are known: `owner/repo`, else the directory's name.
pub fn repo_name(in_repo: bool, origin: Option<&str>, toplevel: Option<&str>) -> (r: Option<String>)
    ensures
        match r {
            Some(n) => Some(n@) == known_name(in_repo, str_view(origin), str_view(toplevel)),
            None => known_name(in_repo, str_view(origin), str_view(toplevel)) is None,
        },
{
    if !in_repo {
        return None;
    }
    if let Some(url) = origin {
        if let Some(n) = repo_name_from_remote(url) {
            return Some(n);
        }
    }
    match toplevel {
        Some(t) => file_name(t),
        None => None,
    }
}

/// The readable name of a repository, as far as it is known.
pub open spec fn known_name(
    in_repo: bool,
    origin: Option<Seq<char>>,
    toplevel: Option<Seq<char>>,
) -> Option<Seq<char>> {
    if !in_repo {
        None
    } else {
        match origin {
            Some(url) if remote_name(url) is Some => remote_name(url),
            _ => match toplevel {
                Some(t) => base_name(t),
                None => None,
            },
        }
    }
}

/// The line on the repository in the system prompt; nothing outside a repository.
pub open spec fn prompt_line(name: Option<Seq<char>>, branch: Option<Seq<char>>) -> Seq<char> {
    match name {
        Some(n) => match branch {
            Some(b) => "Repo: "@ + n + " (branch "@ + b + ")\n"@,
            None => "Repo: "@ + n + "\n"@,
        },
        None => ""@,
    }
}

pub fn repo_prompt_line(name: Option<&str>, branch: Option<&str>) -> (r: String)
    ensures
        r@ == prompt_line(str_view(name), str_view(branch)),
{
    match name {
        Some(n) => {
            let mut out = "Repo: ".to_owned();
            out.push_str(n);
            match branch {
                Some(b) => {
                    out.push_str(" (branch ");
                    out.push_str(b);
                    out.push_str(")\n");
                },
                None => {
                    out.push_str("\n");
                },
            }
            out
        },
        None => "".to_owned(),
    }
}

/// The note on a branch.
pub open spec fn on_branch(branch: Option<Seq<char>>) -> Seq<char> {
    match branch {
        Some(b) => " on branch "@ + b,
        None => ""@,
    }
}

/// What is said about a change of directory from repository `old` to `new`.
pub open spec fn transition(
    old_name: Option<Seq<char>>,
    new_name: Option<Seq<char>>,
    branch: Option<Seq<char>>,
) -> Seq<char> {
    match (old_name, new_name) {
        (None, None) => ""@,
        (Some(o), None) => "\nNote: left repo "@ + o + "; no git repo at this location"@,
        (None, Some(n)) => "\nNote: now working in repo "@ + n + on_branch(branch),
        (Some(o), Some(n)) => if o != n {
            "\nNote: repo context changed: "@ + o + " -> "@ + n + on_branch(branch)
        } else {
            " (repo: "@ + n + ")"@
        },
    }
}

/// The note on a change of directory, given the repositories before and after and
/// the branch at the new place.
pub fn repo_transition_note(
    before: Option<&str>,
    now: Option<&str>,
    branch: Option<&str>,
) -> (r: String)
    ensures
        r@ == transition(str_view(before), str_view(now), str_view(branch)),
{
    let mut on = "".to_owned();
    if let Some(b) = branch {
        on = " on branch ".to_owned();
        on.push_str(b);
    }
    assert(on@ == on_branch(str_view(branch)));
    match before {
        None => match now {
            None => "".to_owned(),
            Some(n) => {
                let mut out = "\nNote: now working in repo ".to_owned();
                out.push_str(n);
                out.push_str(on.as_str());
                out
            },
        },
        Some(o) => match now {
            None => {
                let mut out = "\nNote: left repo ".to_owned();
                out.push_str(o);
                out.push_str("; no git repo at this location");
                out
            },
            Some(n) => if !text::eq(o, n) {
                let mut out = "\nNote: repo context changed: ".to_owned();
                out.push_str(o);
                out.push_str(" -> ");
                out.push_str(n);
                out.push_str(on.as_str());
                out
            } else {
                let mut out = " (repo: ".to_owned();
                out.push_str(n);
                out.push_str(")");
                out
            },
        },
    }
}

/// Every change of repository is reported: nothing is said only where there is no
/// repository before or after, and staying in one repository is never called a
/// change.
pub proof fn switches_are_reported(
    before: Option<Seq<char>>,
    now: Option<Seq<char>>,
    branch: Option<Seq<char>>,
)
    ensures
        transition(before, now, branch).len() == 0 <==> before is None && now is None,
        before != now <==> chars::starts_with(transition(before, now, branch), "\nNote: "@),
{
    let t = transition(before, now, branch);
    reveal_strlit("");
    reveal_strlit("\nNote: ");
    reveal_strlit("\nNote: left repo ");
    reveal_strlit("\nNote: now working in repo ");
    reveal_strlit("\nNote: repo context changed: ");
    reveal_strlit(" (repo: ");
    if before != now {
        assert(t.subrange(0, 7) =~= "\nNote: "@);
    } else if before is Some {
        assert(t[0] == ' ');
        assert(t.subrange(0, 7)[0] == ' ');
    }
}

/// Law: the key of a text is that of its parts, one after another; a slash becomes two
/// hyphens and any other unsafe character one.
pub proof fn keys_are_made_piece_by_piece(a: Seq<char>, c: char, b: Seq<char>)
    ensures
        safe_key(a + seq![c] + b) == safe_key(a) + (if c == '/' {
            seq!['-', '-']
        } else if chars::is_digit(c) || chars::is_ascii_alpha(c) || c == '-' || c == '_' || c == '.' {
            seq![c]
        } else {
            seq!['-']
        }) + safe_key(b),
    decreases b.len(),
{
    let s = a + seq![c] + b;
    if b.len() == 0 {
        assert(s.drop_last() =~= a);
        assert(s.last() == c);
        assert(safe_key(b) =~= Seq::<char>::empty());
        assert(safe_key(s) =~= safe_key(a) + key_text(c) + safe_key(b));
    } else {
        assert(s.drop_last() =~= a + seq![c] + b.drop_last());
        assert(s.last() == b.last());
        keys_are_made_piece_by_piece(a, c, b.drop_last());
        assert(safe_key(a) + key_text(c) + safe_key(b.drop_last()) + key_text(b.last())
            =~= safe_key(a) + key_text(c) + safe_key(b));
    }
}

/// An owner and a repository, as they stand in the address of a remote.
pub open spec fn owned(owner: Seq<char>, repo: Seq<char>) -> Seq<char> {
    owner + seq!['/'] + repo
}

proof fn lemma_owned(prefix: Seq<char>, owner: Seq<char>, repo: Seq<char>, end: Seq<char>)
    requires
        prefix.len() > 0,
        !chars::is_ws(prefix[0]),
        owner.len() > 0,
        !owner.contains('/'),
        repo.len() > 0,
        !chars::is_ws(repo.last()),
        repo.last() != '/',
        !chars::ends_with(repo, ".git"@),
        end == Seq::<char>::empty() || end == ".git"@ || end == "/"@ || end == ".git/"@,
    ensures
        chars::trim(prefix + owned(owner, repo) + end) == prefix + owned(owner, repo) + end,
        (prefix + owned(owner, repo) + end).skip(prefix.len() as int) == owned(owner, repo) + end,
        without_end(without_end(owned(owner, repo) + end, "/"@), ".git"@) == owned(owner, repo),
        0 < chars::find_char(owned(owner, repo), '/') < owned(owner, repo).len() - 1,
{
    reveal_strlit(".git");
    reveal_strlit("/");
    reveal_strlit(".git/");
    let p = owned(owner, repo);
    let url = prefix + p + end;
    assert(url[0] == prefix[0]);
    assert(url.last() == (if end.len() > 0 {
        end.last()
    } else {
        repo.last()
    }));
    assert(chars::trim_start(url) == url);
    assert(chars::trim_end(url) == url);
    assert(url.skip(prefix.len() as int) =~= p + end);
    assert(p.last() == repo.last());
    let e = p + end;
    assert(!chars::ends_with(p, "/"@)) by {
        if chars::ends_with(p, "/"@) {
            assert(p.subrange(p.len() - 1, p.len() as int)[0] == p.last());
        }
    }
    assert(!chars::ends_with(p, ".git"@)) by {
        if chars::ends_with(p, ".git"@) {
            let k = p.len() - 4;
            assert(p.subrange(k, p.len() as int) =~= ".git"@);
            assert(p[k] == p.subrange(k, p.len() as int)[0]);
            assert(p[k + 1] == p.subrange(k, p.len() as int)[1]);
            assert(p[k + 2] == p.subrange(k, p.len() as int)[2]);
            assert(p[k + 3] == p.subrange(k, p.len() as int)[3]);
            if repo.len() >= 4 {
                assert(repo.subrange(repo.len() - 4, repo.len() as int) =~= ".git"@);
            } else {
                assert(p[owner.len() as int] == '/');
            }
        }
    }
    let g = p + ".git"@;
    assert(g.last() == 't');
    assert(!chars::ends_with(g, "/"@)) by {
        if chars::ends_with(g, "/"@) {
            assert(g.subrange(g.len() - 1, g.len() as int)[0] == g.last());
        }
    }
    assert(g.subrange(g.len() - 4, g.len() as int) =~= ".git"@);
    assert(g.take(g.len() - 4) =~= p);
    if end == "/"@ || end == ".git/"@ {
        assert(e.subrange(e.len() - 1, e.len() as int) =~= "/"@);
        if end == "/"@ {
            assert(e.take(e.len() - 1) =~= p);
        } else {
            assert(e.take(e.len() - 1) =~= g);
        }
    } else if end.len() == 0 {
        assert(e =~= p);
    }
    let f = chars::is_char('/');
    assert forall|j: int| 0 <= j < owner.len() implies !f(#[trigger] p[j]) by {
        assert(p[j] == owner[j]);
    }
    assert(p[owner.len() as int] == '/');
    chars::lemma_find(p, f, owner.len() as int);
}

/// Law: an address of a GitHub remote gives the owner and the repository, in each of its
/// forms, with or without `.git` and a slash at the end.
pub proof fn remotes_give_owner_and_repository(
    owner: Seq<char>,
    repo: Seq<char>,
    end: Seq<char>,
)
    requires
        owner.len() > 0,
        !owner.contains('/'),
        repo.len() > 0,
        !chars::is_ws(repo.last()),
        repo.last() != '/',
        !chars::ends_with(repo, ".git"@),
        end == Seq::<char>::empty() || end == ".git"@ || end == "/"@ || end == ".git/"@,
    ensures
        remote_name("git@github.com:"@ + owned(owner, repo) + end) == Some(owned(owner, repo)),
        remote_name("https://github.com/"@ + owned(owner, repo) + end) == Some(owned(owner, repo)),
        remote_name("http://github.com/"@ + owned(owner, repo) + end) == Some(owned(owner, repo)),
        remote_name("ssh://git@github.com/"@ + owned(owner, repo) + end) == Some(owned(owner, repo)),
{
    lemma_hosts(owned(owner, repo) + end);
    reveal_strlit("git@github.com:");
    reveal_strlit("https://github.com/");
    reveal_strlit("http://github.com/");
    reveal_strlit("ssh://git@github.com/");
    lemma_remote("git@github.com:"@, owner, repo, end);
    lemma_remote("https://github.com/"@, owner, repo, end);
    lemma_remote("http://github.com/"@, owner, repo, end);
    lemma_remote("ssh://git@github.com/"@, owner, repo, end);
}

proof fn lemma_remote(prefix: Seq<char>, owner: Seq<char>, repo: Seq<char>, end: Seq<char>)
    requires
        prefix.len() > 0,
        !chars::is_ws(prefix[0]),
        owner.len() > 0,
        !owner.contains('/'),
        repo.len() > 0,
        !chars::is_ws(repo.last()),
        repo.last() != '/',
        !chars::ends_with(repo, ".git"@),
        end == Seq::<char>::empty() || end == ".git"@ || end == "/"@ || end == ".git/"@,
        github_path(prefix + (owned(owner, repo) + end)) == Some(owned(owner, repo) + end),
    ensures
        remote_name(prefix + owned(owner, repo) + end) == Some(owned(owner, repo)),
{
    lemma_owned(prefix, owner, repo, end);
    assert(prefix + owned(owner, repo) + end =~= prefix + (owned(owner, repo) + end));
}

proof fn lemma_begins(prefix: Seq<char>, rest: Seq<char>)
    ensures
        chars::starts_with(prefix + rest, prefix),
        after(prefix + rest, prefix) == rest,
{
    let s = prefix + rest;
    assert(s.subrange(0, prefix.len() as int) =~= prefix);
    assert(s.skip(prefix.len() as int) =~= rest);
}

proof fn lemma_begins_otherwise(s: Seq<char>, prefix: Seq<char>, i: int)
    requires
        0 <= i < prefix.len(),
        i < s.len(),
        s[i] != prefix[i],
    ensures
        !chars::starts_with(s, prefix),
{
    if chars::starts_with(s, prefix) {
        assert(s.subrange(0, prefix.len() as int)[i] == s[i]);
    }
}

proof fn lemma_hosts(rest: Seq<char>)
    ensures
        github_path("git@github.com:"@ + rest) == Some(rest),
        github_path("https://github.com/"@ + rest) == Some(rest),
        github_path("http://github.com/"@ + rest) == Some(rest),
        github_path("ssh://git@github.com/"@ + rest) == Some(rest),
{
    reveal_strlit("git@github.com:");
    reveal_strlit("https://github.com/");
    reveal_strlit("http://github.com/");
    reveal_strlit("ssh://git@github.com/");
    let a1 = "git@github.com:"@;
    let a2 = "https://github.com/"@;
    let a3 = "http://github.com/"@;
    let a4 = "ssh://git@github.com/"@;
    lemma_begins(a1, rest);
    lemma_begins(a2, rest);
    lemma_begins(a3, rest);
    lemma_begins(a4, rest);
    lemma_begins_otherwise(a2 + rest, a1, 0);
    lemma_begins_otherwise(a2 + rest, a4, 0);
    lemma_begins_otherwise(a3 + rest, a1, 0);
    lemma_begins_otherwise(a3 + rest, a4, 0);
    lemma_begins_otherwise(a3 + rest, a2, 4);
    lemma_begins_otherwise(a4 + rest, a1, 0);
}

/// Law: the name at the end of a path is what follows its last slash.
pub proof fn paths_end_in_their_name(dir: Seq<char>, name: Seq<char>)
    requires
        name.len() > 0,
        !name.contains('/'),
        name != "."@,
        name != ".."@,
    ensures
        base_name(dir + seq!['/'] + name) == Some(name),
        base_name(name) == Some(name),
{
    lemma_last_of_split(dir, name);
    chars::lemma_split_whole(name, '/');
}

proof fn lemma_last_of_split(dir: Seq<char>, name: Seq<char>)
    requires
        !name.contains('/'),
    ensures
        chars::split(dir + seq!['/'] + name, '/').len() > 0,
        chars::split(dir + seq!['/'] + name, '/').last() == name,
    decreases dir.len(),
{
    let s = dir + seq!['/'] + name;
    let f = chars::is_char('/');
    chars::lemma_find_props(dir, f);
    let i = chars::find_char(dir, '/');
    if i < dir.len() {
        let a = dir.take(i);
        let d = dir.skip(i + 1);
        assert(dir =~= a + seq!['/'] + d);
        assert(!a.contains('/')) by {
            if a.contains('/') {
                let k = choose|k: int| 0 <= k < a.len() && a[k] == '/';
                assert(!f(dir[k]));
            }
        }
        assert(s =~= a + seq!['/'] + (d + seq!['/'] + name));
        chars::lemma_split_cons(a, '/', d + seq!['/'] + name);
        lemma_last_of_split(d, name);
        let rest = chars::split(d + seq!['/'] + name, '/');
        assert((seq![a] + rest).last() == rest.last());
    } else {
        assert(!dir.contains('/')) by {
            if dir.contains('/') {
                let k = choose|k: int| 0 <= k < dir.len() && dir[k] == '/';
                assert(!f(dir[k]));
            }
        }
        chars::lemma_split_cons(dir, '/', name);
        chars::lemma_split_whole(name, '/');
    }
}

/// Law: the prompt and the notes on a change of repository name the repository and the
/// branch.
pub proof fn notes_name_the_repository(o: Seq<char>, n: Seq<char>, b: Seq<char>)
    ensures
        chars::contains_str(prompt_line(Some(n), Some(b)), n),
        chars::contains_str(prompt_line(Some(n), Some(b)), b),
        chars::contains_str(prompt_line(Some(n), None), n),
        prompt_line(None, Some(b)).len() == 0,
        chars::contains_str(transition(Some(o), None, None), o),
        chars::ends_with(transition(None, Some(n), Some(b)), " on branch "@ + b),
        o != n ==> chars::ends_with(
            transition(Some(o), Some(n), None),
            o + " -> "@ + n,
        ),
        chars::contains_str(transition(Some(n), Some(n), None), n),
{
    reveal_strlit("");
    let p = "Repo: "@;
    let m = " (branch "@;
    let e = ")\n"@;
    chars::lemma_holds_part(p, n, m + b + e);
    assert(p + n + (m + b + e) =~= p + n + m + b + e);
    chars::lemma_holds_part(p + n + m, b, e);
    chars::lemma_holds_part(p, n, "\n"@);
    chars::lemma_holds_part("\nNote: left repo "@, o, "; no git repo at this location"@);
    let t = transition(None, Some(n), Some(b));
    let w = " on branch "@ + b;
    assert(t.subrange(t.len() - w.len(), t.len() as int) =~= w);
    let c = transition(Some(o), Some(n), None);
    let x = o + " -> "@ + n;
    if o != n {
        assert(c =~= "\nNote: repo context changed: "@ + x);
        assert(c.subrange(c.len() - x.len(), c.len() as int) =~= x);
    }
    chars::lemma_holds_part(" (repo: "@, n, ")"@);
}

/// Law: a repository is known by its GitHub remote where it has one, else by its directory;
/// outside a repository there is no name.
pub proof fn remotes_name_before_directories(url: Seq<char>, top: Seq<char>, dir: Seq<char>)
    ensures
        known_name(false, Some(url), Some(top)) is None,
        remote_name(url) matches Some(n) ==> known_name(true, Some(url), Some(top)) == Some(n),
        remote_name(url) is None ==> known_name(true, Some(url), Some(top)) == base_name(top),
        known_name(true, None, Some(top)) == base_name(top),
        remote_name(url) is None ==> known_name(true, Some(url), None) is None,
        known_name(true, None, None) is None,
{
}

/// Law: without a remote the key is made of the directory's name, a dash and eight more
/// characters.
pub proof fn local_keys_begin_with_their_directory(dir: Seq<char>, name: Seq<char>)
    requires
        name.len() > 0,
        !name.contains('/'),
        name != "."@,
        name != ".."@,
    ensures
        ({
            let key = path_key(dir + seq!['/'] + name);
            &&& chars::starts_with(key, safe_key(name) + "-"@)
            &&& key.len() == safe_key(name).len() + 9
        }),
{
    paths_end_in_their_name(dir, name);
    let src = dir + seq!['/'] + name;
    let n = (hash::fnv(encode_utf8(src)) as int % 0x1_0000_0000) as nat;
    lemma_hex_len(n, 8, 0x1_0000_0000);
    chars::zeros_in_front_fill_up(chars::hex(n), 8);
    reveal_strlit("-");
    let key = path_key(src);
    let head = safe_key(name) + "-"@;
    assert(key.subrange(0, head.len() as int) =~= head);
}

proof fn lemma_hex_len(n: nat, k: nat, bound: nat)
    requires
        n < bound,
        k >= 1,
        k == 1 ==> bound == 16,
        k == 2 ==> bound == 0x100,
        k == 3 ==> bound == 0x1000,
        k == 4 ==> bound == 0x1_0000,
        k == 5 ==> bound == 0x10_0000,
        k == 6 ==> bound == 0x100_0000,
        k == 7 ==> bound == 0x1000_0000,
        k == 8 ==> bound == 0x1_0000_0000,
        k <= 8,
    ensures
        1 <= chars::hex(n).len() <= k,
    decreases k,
{
    if n >= 16 {
        lemma_hex_len(n / 16, (k - 1) as nat, bound / 16);
    }
}

} // verus!

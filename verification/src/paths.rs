//! Slash-separated paths as text.
use crate::text;
use vstd::prelude::*;

verus! {

/// `part` under `base`; an absolute `part` stands for itself.
pub open spec fn join_spec(base: Seq<char>, part: Seq<char>) -> Seq<char> {
    if base.len() == 0 || (part.len() > 0 && part[0] == '/') {
        part
    } else if base.last() == '/' {
        base + part
    } else {
        base + "/"@ + part
    }
}

pub fn join(base: &str, part: &str) -> (r: String)
    ensures
        r@ == join_spec(base@, part@),
{
    let b: Vec<char> = text::chars_of(base);
    let p: Vec<char> = text::chars_of(part);
    if b.len() == 0 || (p.len() > 0 && p[0] == '/') {
        part.to_string()
    } else if b[b.len() - 1] == '/' {
        text::cat2(base, part)
    } else {
        text::cat3(base, "/", part)
    }
}

/// A segment that names nothing: an empty one, or a dot.
pub open spec fn is_blank(s: Seq<char>) -> bool {
    s.len() == 0 || s == seq!['.']
}

/// The last segment that names something.
pub open spec fn last_name(parts: Seq<Seq<char>>) -> Option<Seq<char>>
    decreases parts.len(),
{
    if parts.len() == 0 {
        None
    } else if is_blank(parts.last()) {
        last_name(parts.drop_last())
    } else {
        Some(parts.last())
    }
}

/// The final name of a path, where it has one (`..` is none).
pub open spec fn file_name_spec(path: Seq<char>) -> Option<Seq<char>> {
    match last_name(text::split_spec(path, '/')) {
        Some(name) => if name == seq!['.', '.'] {
            None
        } else {
            Some(name)
        },
        None => None,
    }
}

pub fn file_name(path: &str) -> (r: Option<String>)
    ensures
        text::opt_view(r) == file_name_spec(path@),
{
    let parts: Vec<String> = text::split(path, '/');
    let ghost all = text::views(parts@);
    let mut n: usize = parts.len();
    proof {
        assert(all.take(n as int) =~= all);
        reveal_strlit(".");
        reveal_strlit("..");
        assert("."@ =~= seq!['.']);
        assert(".."@ =~= seq!['.', '.']);
    }
    while n > 0
        invariant
            n <= parts@.len(),
            all == text::views(parts@),
            last_name(all) == last_name(all.take(n as int)),
            all == text::split_spec(path@, '/'),
            "."@ == seq!['.'],
            ".."@ == seq!['.', '.'],
        decreases n,
    {
        proof {
            assert(all.take(n as int).last() == parts@[n - 1]@);
            assert(all.take(n as int).drop_last() =~= all.take(n - 1));
        }
        let part: &String = &parts[n - 1];
        if part.as_str().is_empty() || text::same(part.as_str(), ".") {
            n = n - 1;
        } else if text::same(part.as_str(), "..") {
            return None;
        } else {
            return Some(part.clone());
        }
    }
    None
}

/// `path` without the directory `base` that it lies in; unchanged where it
/// does not lie there.
pub open spec fn relative_spec(base: Seq<char>, path: Seq<char>) -> Seq<char> {
    let rest = path.skip(base.len() as int);
    if text::has_prefix(path, base) && (base.len() == 0 || base.last() == '/' || rest.len() == 0
        || rest[0] == '/') {
        rest.skip(text::span(rest, text::only('/')) as int)
    } else {
        path
    }
}

pub fn relative(base: &str, path: &str) -> (r: String)
    ensures
        r@ == relative_spec(base@, path@),
{
    match text::strip_prefix(path, base) {
        Some(rest) => {
            let b: Vec<char> = text::chars_of(base);
            let v: Vec<char> = text::chars_of(rest.as_str());
            if b.len() == 0 || b[b.len() - 1] == '/' || v.len() == 0 || v[0] == '/' {
                text::trim_start_char(rest.as_str(), '/')
            } else {
                path.to_string()
            }
        },
        None => path.to_string(),
    }
}

/// A relative part joined to a directory is what is left of the path without
/// the directory.
pub proof fn law_joined_parts_come_back(base: Seq<char>, part: Seq<char>)
    requires
        part.len() > 0,
        part[0] != '/',
    ensures
        relative_spec(base, join_spec(base, part)) == part,
{
    reveal_strlit("/");
    let path = join_spec(base, part);
    let rest = path.skip(base.len() as int);
    assert(path.take(base.len() as int) =~= base);
    if base.len() == 0 || base.last() == '/' {
        assert(rest =~= part);
        text::lemma_span_is(rest, text::only('/'), 0);
        assert(rest.skip(0) =~= part);
    } else {
        assert(rest =~= "/"@ + part);
        assert(rest[1] == part[0]);
        text::lemma_span_is(rest, text::only('/'), 1);
        assert(rest.skip(1) =~= part);
    }
}

} // verus!

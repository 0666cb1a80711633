//! Paths as text: the final component of a host path, and the virtual path of
//! a child below its parent. The separator is `/`.

use vstd::prelude::*;
use vstd::std_specs::iter::IteratorSpec;
use vstd::string::*;

verus! {

/// Where the last segment of `path` starts: behind its last separator, or at 0
/// where it has none.
pub open spec fn segment_start(path: Seq<char>) -> int
    decreases path.len(),
{
    if path.len() == 0 {
        0
    } else if path.last() == '/' {
        path.len() as int
    } else {
        segment_start(path.drop_last())
    }
}

/// The final component of a path: its last segment that is neither empty nor
/// `.`, unless that segment is `..`. A path made of separators and `.` alone,
/// among them the root and the empty path, has none.
pub open spec fn final_component(path: Seq<char>) -> Option<Seq<char>>
    decreases path.len(),
{
    let start = segment_start(path);
    let segment = path.skip(start);
    if 0 <= start <= path.len() {
        if segment.len() == 0 || segment == seq!['.'] {
            if start == 0 {
                None
            } else {
                final_component(path.take(start - 1))
            }
        } else if segment == seq!['.', '.'] {
            None
        } else {
            Some(segment)
        }
    } else {
        None
    }
}

/// The path of `name` below `base`: the two with one separator between them.
/// None is added where `base` is empty or ends in one already, and a `name`
/// that starts with a separator stands for itself.
pub open spec fn joined(base: Seq<char>, name: Seq<char>) -> Seq<char> {
    if name.len() > 0 && name[0] == '/' {
        name
    } else if base.len() == 0 || base.last() == '/' {
        base + name
    } else {
        base + seq!['/'] + name
    }
}

/// The shape of a virtual path: a separator, then more, and no separator at the end.
pub open spec fn rooted(path: Seq<char>) -> bool {
    path.len() > 1 && path[0] == '/' && path.last() != '/'
}

/// A position behind a separator (or 0) with no separator from it on is where
/// the last segment starts.
pub proof fn lemma_segment_start(path: Seq<char>, start: int)
    requires
        0 <= start <= path.len(),
        start == 0 || path[start - 1] == '/',
        forall|j: int| start <= j < path.len() ==> path[j] != '/',
    ensures
        segment_start(path) == start,
    decreases path.len(),
{
    if path.len() > 0 && path.last() != '/' {
        let rest = path.drop_last();
        assert(start < path.len());
        assert(start == 0 || rest[start - 1] == path[start - 1]);
        lemma_segment_start(rest, start);
    }
}

/// The last segment starts inside the path, behind a separator or at 0, and
/// holds no separator.
pub proof fn lemma_segment_start_is(path: Seq<char>)
    ensures
        0 <= segment_start(path) <= path.len(),
        segment_start(path) == 0 || path[segment_start(path) - 1] == '/',
        forall|j: int| segment_start(path) <= j < path.len() ==> path[j] != '/',
    decreases path.len(),
{
    if path.len() > 0 && path.last() != '/' {
        let rest = path.drop_last();
        lemma_segment_start_is(rest);
        let s = segment_start(rest);
        assert(s == 0 || rest[s - 1] == path[s - 1]);
        assert forall|j: int| s <= j < path.len() implies path[j] != '/' by {
            if j < rest.len() {
                assert(rest[j] == path[j]);
            }
        }
    }
}

/// A final component is a stretch of the path that is not empty, holds no
/// separator, and is neither `.` nor `..`.
pub proof fn lemma_final_component_is_name(path: Seq<char>)
    ensures
        match final_component(path) {
            Some(name) => {
                &&& name.len() > 0
                &&& forall|j: int| 0 <= j < name.len() ==> name[j] != '/'
                &&& name != seq!['.']
                &&& name != seq!['.', '.']
            },
            None => true,
        },
    decreases path.len(),
{
    lemma_segment_start_is(path);
    let start = segment_start(path);
    let segment = path.skip(start);
    if segment.len() == 0 || segment == seq!['.'] {
        if start != 0 {
            lemma_final_component_is_name(path.take(start - 1));
        }
    }
}

/// The characters of `s`, one by one.
pub fn chars_of(s: &str) -> (v: Vec<char>)
    ensures
        v@ == s@,
{
    let mut v: Vec<char> = Vec::new();
    for c in it: s.chars()
        invariant
            it.seq() == s@,
            v@ == s@.take(it.index() as int),
    {
        v.push(c);
        assert(s@.take(it.index() + 1) =~= s@.take(it.index() as int).push(c));
    }
    assert(s@.take(s@.len() as int) =~= s@);
    v
}

/// The final component of `path`, if it has one.
pub fn file_name(path: &str) -> (name: Option<String>)
    ensures
        match name {
            Some(text) => final_component(path@) == Some(text@),
            None => final_component(path@) is None,
        },
{
    let chars = chars_of(path);
    let mut end: usize = chars.len();
    assert(path@.take(end as int) =~= path@);
    loop
        invariant
            chars@ == path@,
            end <= chars@.len(),
            final_component(path@) == final_component(path@.take(end as int)),
        decreases end,
    {
        let ghost prefix = path@.take(end as int);
        let mut start: usize = end;
        while start > 0 && chars[start - 1] != '/'
            invariant
                chars@ == path@,
                start <= end <= chars@.len(),
                forall|j: int| start <= j < end ==> path@[j] != '/',
            decreases start,
        {
            start = start - 1;
        }
        proof {
            lemma_segment_start(prefix, start as int);
        }
        let len: usize = end - start;
        let ghost segment = prefix.skip(start as int);
        assert(segment.len() == len);
        assert(forall|j: int| 0 <= j < len ==> segment[j] == path@[start + j]);
        let dots: usize = if len == 1 && chars[start] == '.' {
            1
        } else if len == 2 && chars[start] == '.' && chars[start + 1] == '.' {
            2
        } else {
            0
        };
        proof {
            if dots == 1 {
                assert(segment =~= seq!['.']);
            } else {
                assert(segment != seq!['.']) by {
                    if segment == seq!['.'] {
                        assert(segment[0] == '.');
                    }
                }
            }
            if dots == 2 {
                assert(segment =~= seq!['.', '.']);
            } else {
                assert(segment != seq!['.', '.']) by {
                    if segment == seq!['.', '.'] {
                        assert(segment[0] == '.');
                        assert(segment[1] == '.');
                    }
                }
            }
        }
        if len == 0 || dots == 1 {
            if start == 0 {
                return None;
            }
            proof {
                assert(prefix.take(start - 1) =~= path@.take(start - 1));
            }
            end = start - 1;
        } else if dots == 2 {
            return None;
        } else {
            let text = path.substring_char(start, end);
            proof {
                assert(path@.subrange(start as int, end as int) =~= segment);
            }
            return Some(text.to_owned());
        }
    }
}

/// The path of `name` below `base`.
pub fn join(base: &str, name: &str) -> (path: String)
    ensures
        path@ == joined(base@, name@),
{
    let head = chars_of(name);
    if head.len() > 0 && head[0] == '/' {
        return name.to_owned();
    }
    let chars = chars_of(base);
    let n: usize = chars.len();
    let mut path = base.to_owned();
    if n > 0 && chars[n - 1] != '/' {
        proof {
            reveal_strlit("/");
        }
        path.append("/");
        assert(path@ =~= base@ + seq!['/']);
    }
    path.append(name);
    path
}

} // verus!

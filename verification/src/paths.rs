//! Paths as the library sees them: Unix path text, read component by
//! component as `Path::components` reads it. Doubled separators and `.`
//! components past the first do not count, so a trailing `/` or `/.` names
//! the same file as the text before it.
use vstd::prelude::*;

verus! {

/// Where the last component of `s` starts: just past the last `/` among the
/// first `i` characters, or 0 when there is none.
pub open spec fn segment_start(s: Seq<char>, i: int) -> int
    decreases i,
{
    if i <= 0 {
        0
    } else if s[i - 1] == '/' {
        i
    } else {
        segment_start(s, i - 1)
    }
}

/// The end of the first `n` characters of `s` once trailing separators and
/// trailing `/.` components are dropped: what stays names the same path.
pub open spec fn trim_end(s: Seq<char>, n: int) -> int
    decreases n,
{
    if n <= 0 {
        0
    } else if s[n - 1] == '/' {
        trim_end(s, n - 1)
    } else if n >= 2 && s[n - 1] == '.' && s[n - 2] == '/' {
        trim_end(s, n - 2)
    } else {
        n
    }
}

/// Where the text of the last component of `s` ends.
pub open spec fn name_end(s: Seq<char>) -> int {
    trim_end(s, s.len() as int)
}

/// The text of the last component.
pub open spec fn last_segment(s: Seq<char>) -> Seq<char> {
    s.subrange(segment_start(s, name_end(s)), name_end(s))
}

/// `Path::file_name`: the last component, unless that is the root, `.` or
/// `..`, or the path is empty.
pub open spec fn file_name(s: Seq<char>) -> Option<Seq<char>> {
    let seg = last_segment(s);
    if seg.len() == 0 || seg == seq!['.'] || seg == seq!['.', '.'] {
        None
    } else {
        Some(seg)
    }
}

/// `Path::parent` of a path whose last component is a name: the text
/// before that component, trailing separators and `/.` dropped, the root
/// kept.
pub open spec fn parent_of_named(s: Seq<char>) -> Seq<char> {
    let p = trim_end(s, segment_start(s, name_end(s)));
    if p == 0 {
        if s.len() > 0 && s[0] == '/' {
            seq!['/']
        } else {
            seq![]
        }
    } else {
        s.subrange(0, p)
    }
}

/// The name shown for a directory: its file name, or the whole path when it
/// has none.
pub open spec fn dir_name_of(s: Seq<char>) -> Seq<char> {
    match file_name(s) {
        Some(n) => n,
        None => s,
    }
}

proof fn lemma_segment_start_bounds(s: Seq<char>, i: int)
    requires
        0 <= i <= s.len(),
    ensures
        0 <= segment_start(s, i) <= i,
        forall|k: int| segment_start(s, i) <= k < i ==> s[k] != '/',
        segment_start(s, i) > 0 ==> s[segment_start(s, i) - 1] == '/',
    decreases i,
{
    if i > 0 && s[i - 1] != '/' {
        lemma_segment_start_bounds(s, i - 1);
    }
}

proof fn lemma_trim_end_bounds(s: Seq<char>, n: int)
    requires
        0 <= n <= s.len(),
    ensures
        0 <= trim_end(s, n) <= n,
    decreases n,
{
    if n > 0 && s[n - 1] == '/' {
        lemma_trim_end_bounds(s, n - 1);
    } else if n >= 2 && s[n - 1] == '.' && s[n - 2] == '/' {
        lemma_trim_end_bounds(s, n - 2);
    }
}

/// The end of the first `n` characters once trailing separators and
/// trailing `/.` components are dropped.
pub fn trimmed_end(s: &str, n: usize) -> (r: usize)
    requires
        n <= s@.len(),
    ensures
        r == trim_end(s@, n as int),
        r <= n,
    decreases n,
{
    proof {
        lemma_trim_end_bounds(s@, n as int);
    }
    if n == 0 {
        0
    } else if s.get_char(n - 1) == '/' {
        trimmed_end(s, n - 1)
    } else if n >= 2 && s.get_char(n - 1) == '.' && s.get_char(n - 2) == '/' {
        trimmed_end(s, n - 2)
    } else {
        n
    }
}

/// Where the last component of the first `n` characters starts.
fn segment_start_of(s: &str, n: usize) -> (r: usize)
    requires
        n <= s@.len(),
    ensures
        r == segment_start(s@, n as int),
        r <= n,
{
    let mut i = n;
    while i > 0 && s.get_char(i - 1) != '/'
        invariant
            n <= s@.len(),
            i <= n,
            segment_start(s@, i as int) == segment_start(s@, n as int),
        decreases i,
    {
        i = i - 1;
    }
    proof {
        lemma_segment_start_bounds(s@, n as int);
    }
    i
}

/// Index where the last component of `s` starts.
pub fn last_segment_start(s: &str) -> (r: usize)
    ensures
        r == segment_start(s@, name_end(s@)),
        r <= name_end(s@),
        name_end(s@) <= s@.len(),
{
    let len = s.unicode_len();
    let end = trimmed_end(s, len);
    segment_start_of(s, end)
}

/// `Path::file_name` of `s`, as text.
pub fn file_name_of(s: &str) -> (r: Option<String>)
    ensures
        match r {
            Some(n) => file_name(s@) == Some(n@),
            None => file_name(s@) is None,
        },
{
    let len = s.unicode_len();
    let end = trimmed_end(s, len);
    let start = segment_start_of(s, end);
    let seg = s.substring_char(start, end);
    let n = end - start;
    if n == 0 {
        return None;
    }
    let c0 = seg.get_char(0);
    if n == 1 && c0 == '.' {
        assert(seg@ =~= seq!['.']);
        return None;
    }
    if n == 2 && c0 == '.' && seg.get_char(1) == '.' {
        assert(seg@ =~= seq!['.', '.']);
        return None;
    }
    proof {
        if n == 1 {
            assert(seg@[0] != '.');
            assert(seg@ != seq!['.']);
        }
        if n == 2 {
            assert(seg@ != seq!['.', '.']) by {
                if seg@ == seq!['.', '.'] {
                    assert(seg@[0] == '.');
                    assert(seg@[1] == '.');
                }
            }
        }
        if n != 1 {
            assert(seg@.len() != seq!['.'].len());
        }
        if n != 2 {
            assert(seg@.len() != seq!['.', '.'].len());
        }
    }
    Some(String::from_str(seg))
}

/// The directory's name for display: its file name, or the whole path.
pub fn dir_name(path: &str) -> (r: String)
    ensures
        r@ == dir_name_of(path@),
{
    match file_name_of(path) {
        Some(n) => n,
        None => String::from_str(path),
    }
}

/// The parent of a path whose last component is a name.
pub fn parent_of(s: &str) -> (r: String)
    ensures
        r@ == parent_of_named(s@),
{
    let start = last_segment_start(s);
    let p = trimmed_end(s, start);
    if p == 0 {
        let len = s.unicode_len();
        if len > 0 && s.get_char(0) == '/' {
            proof {
                reveal_strlit("/");
            }
            String::from_str("/")
        } else {
            String::new()
        }
    } else {
        String::from_str(s.substring_char(0, p))
    }
}

} // verus!

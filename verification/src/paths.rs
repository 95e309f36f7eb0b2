use vstd::prelude::*;
use vstd::string::StrSliceExecFns;
use vstd::string::StringExecFns;
use crate::strutil::{find_char, find_char_in, lemma_find_char_unique};

verus! {

/// Index of the last occurrence of `c` in `s`, or `-1` when `c` does not
/// occur.
pub open spec fn rfind_char(s: Seq<char>, c: char) -> int
    decreases s.len(),
{
    if s.len() == 0 {
        -1
    } else if s.last() == c {
        s.len() - 1
    } else {
        rfind_char(s.drop_last(), c)
    }
}

pub proof fn lemma_rfind_char_unique(s: Seq<char>, c: char, i: int)
    requires
        -1 <= i < s.len(),
        i >= 0 ==> s[i] == c,
        forall|k: int| i < k < s.len() ==> s[k] != c,
    ensures
        rfind_char(s, c) == i,
    decreases s.len(),
{
    if s.len() == 0 {
    } else if s.last() == c {
        assert(i == s.len() - 1);
    } else {
        assert(i < s.len() - 1);
        assert forall|k: int| i < k < s.drop_last().len() implies s.drop_last()[k] != c by {
            assert(s.drop_last()[k] == s[k]);
        }
        lemma_rfind_char_unique(s.drop_last(), c, i);
    }
}

/// The part of `s` after the last occurrence of `c`; all of `s` when `c`
/// does not occur.
pub open spec fn after_last(s: Seq<char>, c: char) -> Seq<char> {
    s.skip(rfind_char(s, c) + 1)
}

/// The part of `s` before the first occurrence of `c`; all of `s` when `c`
/// does not occur.
pub open spec fn before_first(s: Seq<char>, c: char) -> Seq<char> {
    s.take(find_char(s, c))
}

/// Scan `s` from the end for the last occurrence of `c`.
fn rfind_char_in(s: &str, c: char) -> (r: Option<usize>)
    ensures
        match r {
            Some(i) => i < s@.len() && rfind_char(s@, c) == i,
            None => rfind_char(s@, c) == -1,
        },
{
    let n = s.unicode_len();
    let mut i = n;
    while i > 0
        invariant
            n == s@.len(),
            i <= n,
            forall|k: int| i <= k < n ==> s@[k] != c,
        decreases i,
    {
        i -= 1;
        if s.get_char(i) == c {
            proof {
                lemma_rfind_char_unique(s@, c, i as int);
            }
            return Some(i);
        }
    }
    proof {
        lemma_rfind_char_unique(s@, c, -1);
    }
    None
}

/// The folder name a repository URL clones into: the text after the URL's
/// last `/`, cut before its first `.` (so a trailing `.git` is dropped).
pub fn repo_folder_name(url: &str) -> (r: String)
    ensures
        r@ == before_first(after_last(url@, '/'), '.'),
{
    let n = url.unicode_len();
    let start = match rfind_char_in(url, '/') {
        Some(i) => i + 1,
        None => 0,
    };
    let base = url.substring_char(start, n);
    proof {
        assert(base@ =~= after_last(url@, '/'));
    }
    let dot = find_char_in(base, 0, '.');
    let r = base.substring_char(0, dot).to_owned();
    proof {
        lemma_find_char_unique(base@, '.', dot as int);
        assert(r@ =~= before_first(base@, '.'));
    }
    r
}

/// The folder name a local source folder copies into: the text after the
/// path's last `/`.
pub fn local_folder_name(path: &str) -> (r: String)
    ensures
        r@ == after_last(path@, '/'),
{
    let n = path.unicode_len();
    let start = match rfind_char_in(path, '/') {
        Some(i) => i + 1,
        None => 0,
    };
    let r = path.substring_char(start, n).to_owned();
    proof {
        assert(r@ =~= after_last(path@, '/'));
    }
    r
}

/// Join a directory path and a name below it with a `/` separator.
pub fn join_path(base: &str, name: &str) -> (r: String)
    ensures
        r@ == base@ + seq!['/'] + name@,
{
    let mut r = base.to_owned();
    r.append("/");
    r.append(name);
    proof {
        reveal_strlit("/");
        assert("/"@ =~= seq!['/']);
        assert(r@ =~= base@ + seq!['/'] + name@);
    }
    r
}

/// Index of the last character of `s` that is not `c`, or `-1` when every
/// character is `c` (or `s` is empty).
pub open spec fn rfind_not_char(s: Seq<char>, c: char) -> int
    decreases s.len(),
{
    if s.len() == 0 {
        -1
    } else if s.last() != c {
        s.len() - 1
    } else {
        rfind_not_char(s.drop_last(), c)
    }
}

pub proof fn lemma_rfind_not_char_unique(s: Seq<char>, c: char, i: int)
    requires
        -1 <= i < s.len(),
        i >= 0 ==> s[i] != c,
        forall|k: int| i < k < s.len() ==> s[k] == c,
    ensures
        rfind_not_char(s, c) == i,
    decreases s.len(),
{
    if s.len() == 0 {
    } else if s.last() != c {
        assert(i == s.len() - 1);
    } else {
        assert(i < s.len() - 1);
        assert forall|k: int| i < k < s.drop_last().len() implies s.drop_last()[k] == c by {
            assert(s.drop_last()[k] == s[k]);
        }
        lemma_rfind_not_char_unique(s.drop_last(), c, i);
    }
}

/// The last nonempty line of `s`: the rightmost maximal run of characters
/// other than `\n`, or nothing when `s` holds only newlines or is empty.
pub open spec fn last_nonempty_line_spec(s: Seq<char>) -> Option<Seq<char>> {
    let e = rfind_not_char(s, '\n');
    if e == -1 {
        None
    } else {
        Some(s.take(e + 1).skip(rfind_char(s.take(e + 1), '\n') + 1))
    }
}

/// The last nonempty line of a command's output: packaging tools report the
/// file they produced on their final line.
pub fn last_nonempty_line(s: &str) -> (r: Option<String>)
    ensures
        match r {
            Some(line) => last_nonempty_line_spec(s@) == Some(line@),
            None => last_nonempty_line_spec(s@) is None,
        },
{
    let n = s.unicode_len();
    let mut i = n;
    while i > 0
        invariant
            n == s@.len(),
            i <= n,
            forall|k: int| i <= k < n ==> s@[k] == '\n',
        decreases i,
    {
        i -= 1;
        if s.get_char(i) != '\n' {
            proof {
                lemma_rfind_not_char_unique(s@, '\n', i as int);
            }
            // the line ends just after position i; find where it starts
            let prefix = s.substring_char(0, i + 1);
            proof {
                assert(prefix@ =~= s@.take(i + 1));
            }
            let start = match rfind_char_in(prefix, '\n') {
                Some(b) => b + 1,
                None => 0,
            };
            let line = prefix.substring_char(start, i + 1).to_owned();
            proof {
                assert(line@ =~= prefix@.skip(rfind_char(prefix@, '\n') + 1));
            }
            return Some(line);
        }
    }
    proof {
        lemma_rfind_not_char_unique(s@, '\n', -1);
    }
    None
}

} // verus!

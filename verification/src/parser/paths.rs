//! File names, stems and extensions of `/`-separated paths, as `std::path`
//! defines them on Unix.
use vstd::prelude::*;
use crate::text::{from_chars, slice_chars, to_chars};

verus! {

/// Index of the last occurrence of `c` in `s`, or -1.
pub open spec fn last_index(s: Seq<char>, c: char) -> int
    decreases s.len(),
{
    if s.len() == 0 {
        -1
    } else if s.last() == c {
        s.len() - 1
    } else {
        last_index(s.drop_last(), c)
    }
}

/// The final component of a path: the text after the last `/`, skipping
/// empty and `.` components; none when the path ends in `..` or has no
/// such component.
pub open spec fn file_name_of(p: Seq<char>) -> Option<Seq<char>>
    decreases p.len(),
{
    let k = last_index(p, '/');
    let seg = p.subrange(k + 1, p.len() as int);
    if seg.len() == 0 || seg == "."@ {
        if k < 0 {
            None
        } else {
            proof {
                lemma_last_index(p, '/');
            }
            file_name_of(p.subrange(0, k))
        }
    } else if seg == ".."@ {
        None
    } else {
        Some(seg)
    }
}

/// `Path::file_stem`: the file name without its final extension; the whole
/// name when it has no `.` or its only `.` is the first character.
pub open spec fn file_stem_of(p: Seq<char>) -> Option<Seq<char>> {
    match file_name_of(p) {
        Some(f) => {
            let d = last_index(f, '.');
            if d <= 0 {
                Some(f)
            } else {
                Some(f.subrange(0, d))
            }
        },
        None => None,
    }
}

/// `Path::extension`: the text after the final `.` of the file name, when
/// that `.` is not its first character.
pub open spec fn extension_of(p: Seq<char>) -> Option<Seq<char>> {
    match file_name_of(p) {
        Some(f) => {
            let d = last_index(f, '.');
            if d <= 0 {
                None
            } else {
                Some(f.subrange(d + 1, f.len() as int))
            }
        },
        None => None,
    }
}

pub proof fn lemma_last_index(s: Seq<char>, c: char)
    ensures
        -1 <= last_index(s, c) < s.len(),
        last_index(s, c) >= 0 ==> s[last_index(s, c)] == c,
        forall|j: int| last_index(s, c) < j < s.len() ==> s[j] != c,
    decreases s.len(),
{
    if s.len() > 0 && s.last() != c {
        lemma_last_index(s.drop_last(), c);
        assert forall|j: int| last_index(s, c) < j < s.len() implies s[j] != c by {
            if j < s.len() - 1 {
                assert(s.drop_last()[j] == s[j]);
            }
        }
    }
}

/// Index of the last `c` in `v`, if any.
pub fn find_last(v: &[char], c: char) -> (r: Option<usize>)
    ensures
        match r {
            Some(i) => i as int == last_index(v@, c),
            None => last_index(v@, c) == -1,
        },
{
    let mut i = v.len();
    assert(v@.subrange(0, v.len() as int) =~= v@);
    while i > 0
        invariant
            i <= v.len(),
            last_index(v@, c) == last_index(v@.subrange(0, i as int), c),
        decreases i,
    {
        if v[i - 1] == c {
            return Some(i - 1);
        }
        assert(v@.subrange(0, i as int).drop_last() =~= v@.subrange(0, i - 1));
        i = i - 1;
    }
    assert(v@.subrange(0, 0) =~= Seq::<char>::empty());
    None
}

proof fn lemma_dot_literals()
    ensures
        "."@ == seq!['.'],
        ".."@ == seq!['.', '.'],
{
    reveal_strlit(".");
    reveal_strlit("..");
    assert("."@ =~= seq!['.']);
    assert(".."@ =~= seq!['.', '.']);
}

/// The file name of the path `p`.
pub fn file_name_chars(p: &[char]) -> (r: Option<Vec<char>>)
    ensures
        match r {
            Some(f) => file_name_of(p@) == Some(f@),
            None => file_name_of(p@) is None,
        },
{
    let mut end = p.len();
    assert(p@.subrange(0, p.len() as int) =~= p@);
    loop
        invariant
            end <= p.len(),
            file_name_of(p@) == file_name_of(p@.subrange(0, end as int)),
        decreases end,
    {
        let ghost q = p@.subrange(0, end as int);
        let prefix = slice_chars(p, 0, end);
        let k = find_last(prefix.as_slice(), '/');
        proof {
            lemma_last_index(q, '/');
            lemma_dot_literals();
        }
        let start = match k {
            Some(i) => i + 1,
            None => 0,
        };
        let seg = slice_chars(p, start, end);
        assert(seg@ == q.subrange(last_index(q, '/') + 1, q.len() as int));
        let is_dot = seg.len() == 1 && seg[0] == '.';
        let is_dotdot = seg.len() == 2 && seg[0] == '.' && seg[1] == '.';
        proof {
            if is_dot {
                assert(seg@ =~= seq!['.']);
            }
            if seg@ == "."@ {
                assert(seg@[0] == '.');
            }
            if is_dotdot {
                assert(seg@ =~= seq!['.', '.']);
            }
            if seg@ == ".."@ {
                assert(seg@[0] == '.' && seg@[1] == '.');
            }
            assert(is_dot == (seg@ == "."@));
            assert(is_dotdot == (seg@ == ".."@));
        }
        if seg.len() == 0 || is_dot {
            match k {
                None => {
                    return None;
                },
                Some(i) => {
                    assert(q.subrange(0, i as int) =~= p@.subrange(0, i as int));
                    end = i;
                },
            }
        } else if is_dotdot {
            return None;
        } else {
            return Some(seg);
        }
    }
}

/// The stem of the path `p`, as a string.
pub fn file_stem_text(p: &str) -> (r: Option<String>)
    ensures
        match r {
            Some(s) => file_stem_of(p@) == Some(s@),
            None => file_stem_of(p@) is None,
        },
{
    let chars = to_chars(p);
    match file_name_chars(chars.as_slice()) {
        None => None,
        Some(f) => {
            let found = find_last(f.as_slice(), '.');
            proof {
                lemma_last_index(f@, '.');
            }
            match found {
                Some(d) => {
                    if d == 0 {
                        Some(from_chars(f.as_slice()))
                    } else {
                        let stem = slice_chars(f.as_slice(), 0, d);
                        Some(from_chars(stem.as_slice()))
                    }
                },
                None => Some(from_chars(f.as_slice())),
            }
        },
    }
}

/// The extension of the path `p`.
pub fn extension_chars(p: &[char]) -> (r: Option<Vec<char>>)
    ensures
        match r {
            Some(e) => extension_of(p@) == Some(e@),
            None => extension_of(p@) is None,
        },
{
    match file_name_chars(p) {
        None => None,
        Some(f) => {
            match find_last(f.as_slice(), '.') {
                Some(d) => {
                    if d == 0 {
                        None
                    } else {
                        proof {
                            lemma_last_index(f@, '.');
                        }
                        Some(slice_chars(f.as_slice(), d + 1, f.len()))
                    }
                },
                None => None,
            }
        },
    }
}

} // verus!

//! File names and extensions of paths written with `/` separators, as
//! `std::path::Path` reads them on Unix.
use vstd::prelude::*;

verus! {

/// Index of the last `c` in `s`, or -1 where `s` holds none.
pub open spec fn last_index_of(s: Seq<char>, c: char) -> int
    decreases s.len(),
{
    if s.len() == 0 {
        -1
    } else if s.last() == c {
        s.len() - 1
    } else {
        last_index_of(s.drop_last(), c)
    }
}

/// `last_index_of` is -1 or the index of the last `c`.
pub proof fn lemma_last_index_of(s: Seq<char>, c: char)
    ensures
        -1 <= last_index_of(s, c) < s.len(),
        last_index_of(s, c) >= 0 ==> s[last_index_of(s, c)] == c,
        forall|j: int| last_index_of(s, c) < j < s.len() ==> s[j] != c,
    decreases s.len(),
{
    if s.len() > 0 && s.last() != c {
        lemma_last_index_of(s.drop_last(), c);
        assert forall|j: int| last_index_of(s, c) < j < s.len() implies s[j] != c by {
            if j < s.len() - 1 {
                assert(s.drop_last()[j] == s[j]);
            }
        }
    }
}

/// The text after the last `/` of `p`.
pub open spec fn last_segment(p: Seq<char>) -> Seq<char> {
    p.skip(last_index_of(p, '/') + 1)
}

/// The final component of `p` when it is a name: trailing separators and
/// `.` components are passed over, and a path that ends in `..`, is empty
/// or is only separators has none.
pub open spec fn file_name(p: Seq<char>) -> Option<Seq<char>>
    decreases p.len(),
{
    if p.len() == 0 {
        None
    } else if p.last() == '/' {
        file_name(p.drop_last())
    } else if last_segment(p) == seq!['.'] {
        proof {
            lemma_last_index_of(p, '/');
        }
        file_name(p.take(last_index_of(p, '/') + 1))
    } else if last_segment(p) == seq!['.', '.'] {
        None
    } else {
        Some(last_segment(p))
    }
}

/// The extension of a file name: the text after its last `.`, where that
/// dot is not the name's first character.
pub open spec fn extension(name: Seq<char>) -> Option<Seq<char>> {
    if last_index_of(name, '.') <= 0 {
        None
    } else {
        Some(name.skip(last_index_of(name, '.') + 1))
    }
}

/// The extension of the file that `p` names, as `Path::extension` gives it.
pub open spec fn path_extension(p: Seq<char>) -> Option<Seq<char>> {
    match file_name(p) {
        Some(name) => extension(name),
        None => None,
    }
}

/// `c` with ASCII capitals made small.
pub open spec fn ascii_lower(c: char) -> char {
    if 'A' <= c <= 'Z' {
        ((c as u32) + 32) as char
    } else {
        c
    }
}

/// `a` and `b` are the same text when ASCII letters are compared without
/// regard to case, as `str::eq_ignore_ascii_case` compares them.
pub open spec fn same_ignoring_ascii_case(a: Seq<char>, b: Seq<char>) -> bool {
    a.len() == b.len() && forall|i: int| 0 <= i < a.len() ==> ascii_lower(#[trigger] a[i]) == ascii_lower(b[i])
}

/// The characters of `s`.
pub fn chars_of(s: &str) -> (chars: Vec<char>)
    ensures
        chars@ == s@,
{
    let mut chars: Vec<char> = Vec::new();
    for c in it: s.chars()
        invariant
            it.seq() == s@,
            chars@ == s@.take(it.index() as int),
    {
        chars.push(c);
        assert(s@.take(it.index() + 1) =~= s@.take(it.index() as int).push(c));
    }
    assert(s@.take(s@.len() as int) =~= s@);
    chars
}

/// Index of the last `c` in `s` before `end`, or nothing.
fn last_before(s: &Vec<char>, c: char, end: usize) -> (found: Option<usize>)
    requires
        end <= s@.len(),
    ensures
        found matches Some(i) ==> i < end && i == last_index_of(s@.take(end as int), c),
        found is None ==> last_index_of(s@.take(end as int), c) == -1,
{
    let mut j = end;
    while j > 0 && s[j - 1] != c
        invariant
            j <= end <= s@.len(),
            last_index_of(s@.take(end as int), c) == last_index_of(s@.take(j as int), c),
        decreases j,
    {
        assert(s@.take(j as int).drop_last() =~= s@.take(j - 1));
        j = j - 1;
    }
    if j == 0 {
        None
    } else {
        Some(j - 1)
    }
}

/// Where the file name of the path `p` starts and ends.
pub fn file_name_span(p: &Vec<char>) -> (span: Option<(usize, usize)>)
    ensures
        span is None ==> file_name(p@) is None,
        span matches Some((start, end)) ==> start <= end <= p@.len() && file_name(p@) == Some(
            p@.subrange(start as int, end as int),
        ),
{
    let mut end = p.len();
    assert(p@.take(end as int) =~= p@);
    loop
        invariant
            end <= p@.len(),
            file_name(p@) == file_name(p@.take(end as int)),
        decreases end,
    {
        let ghost q = p@.take(end as int);
        if end == 0 {
            return None;
        }
        if p[end - 1] == '/' {
            assert(q.drop_last() =~= p@.take(end - 1));
            end = end - 1;
        } else {
            let start = match last_before(p, '/', end) {
                Some(i) => i + 1,
                None => 0,
            };
            proof {
                lemma_last_index_of(q, '/');
            }
            assert(last_segment(q) =~= p@.subrange(start as int, end as int));
            if end - start == 1 && p[start] == '.' {
                assert(last_segment(q) =~= seq!['.']);
                assert(q.take(start as int) =~= p@.take(start as int));
                end = start;
            } else if end - start == 2 && p[start] == '.' && p[start + 1] == '.' {
                assert(last_segment(q) =~= seq!['.', '.']);
                return None;
            } else {
                assert(last_segment(q) != seq!['.']) by {
                    if end - start == 1 {
                        assert(last_segment(q)[0] == p@[start as int]);
                    }
                }
                assert(last_segment(q) != seq!['.', '.']) by {
                    if end - start == 2 {
                        assert(last_segment(q)[0] == p@[start as int]);
                        assert(last_segment(q)[1] == p@[start + 1]);
                    }
                }
                return Some((start, end));
            }
        }
    }
}

/// Where the extension of the file that `p` names starts and ends.
pub fn extension_span(p: &Vec<char>) -> (span: Option<(usize, usize)>)
    ensures
        span is None ==> path_extension(p@) is None,
        span matches Some((start, end)) ==> start <= end <= p@.len() && path_extension(p@) == Some(
            p@.subrange(start as int, end as int),
        ),
{
    match file_name_span(p) {
        None => None,
        Some((start, end)) => {
            let ghost name = p@.subrange(start as int, end as int);
            let dot = last_before(p, '.', end);
            proof {
                lemma_last_index_of(p@.take(end as int), '.');
                lemma_last_index_of(name, '.');
                lemma_last_dot_in_name(p@, start as int, end as int);
            }
            match dot {
                Some(d) => {
                    if d <= start {
                        None
                    } else {
                        assert(name.skip(last_index_of(name, '.') + 1) =~= p@.subrange(d + 1, end as int));
                        Some((d + 1, end))
                    }
                },
                None => None,
            }
        },
    }
}

/// The last dot of the name between `start` and `end` is the last dot
/// before `end`, moved to the name, when that dot lies within the name.
proof fn lemma_last_dot_in_name(p: Seq<char>, start: int, end: int)
    requires
        0 <= start <= end <= p.len(),
    ensures
        ({
            let d = last_index_of(p.take(end), '.');
            let name = p.subrange(start, end);
            &&& d >= start ==> last_index_of(name, '.') == d - start
            &&& d < start ==> last_index_of(name, '.') == -1
        }),
    decreases end - start,
{
    let name = p.subrange(start, end);
    if end > start {
        assert(name.drop_last() =~= p.subrange(start, end - 1));
        assert(p.take(end).drop_last() =~= p.take(end - 1));
        if p[end - 1] != '.' {
            lemma_last_dot_in_name(p, start, end - 1);
        }
    } else {
        lemma_last_index_of(p.take(end), '.');
    }
}

/// Whether `c`, compared without regard to ASCII case, is the small ASCII
/// letter `letter`.
pub fn is_letter_ignoring_case(c: char, letter: char) -> (same: bool)
    requires
        'a' <= letter <= 'z',
    ensures
        same == (ascii_lower(c) == letter),
{
    c == letter || (c as u32) + 32 == letter as u32
}

/// Whether `s[start..end]`, compared without regard to ASCII case, is the
/// small ASCII word `word`.
pub fn span_is_word(s: &Vec<char>, start: usize, end: usize, word: &str) -> (same: bool)
    requires
        start <= end <= s@.len(),
        forall|i: int| 0 <= i < word@.len() ==> 'a' <= #[trigger] word@[i] <= 'z',
    ensures
        same == same_ignoring_ascii_case(s@.subrange(start as int, end as int), word@),
{
    let letters = chars_of(word);
    if end - start != letters.len() {
        return false;
    }
    let ghost span = s@.subrange(start as int, end as int);
    let mut i: usize = 0;
    while i < letters.len()
        invariant
            end - start == letters@.len(),
            letters@ == word@,
            start <= end <= s@.len(),
            span == s@.subrange(start as int, end as int),
            forall|i: int| 0 <= i < word@.len() ==> 'a' <= #[trigger] word@[i] <= 'z',
            i <= letters@.len(),
            forall|j: int| 0 <= j < i ==> ascii_lower(#[trigger] span[j]) == ascii_lower(word@[j]),
        decreases letters@.len() - i,
    {
        assert(ascii_lower(word@[i as int]) == word@[i as int]);
        if !is_letter_ignoring_case(s[start + i], letters[i]) {
            assert(span[i as int] == s@[start + i]);
            return false;
        }
        i = i + 1;
    }
    true
}

} // verus!

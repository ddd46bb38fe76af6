use vstd::prelude::*;

verus! {

/// The pieces of `s` between occurrences of `sep`, as `str::split` with a `char`
/// pattern yields them: there is always at least one piece, and a separator at either end
/// gives an empty piece there.
pub open spec fn split_on(s: Seq<char>, sep: char) -> Seq<Seq<char>>
    decreases s.len(),
{
    if s.len() == 0 {
        seq![Seq::<char>::empty()]
    } else {
        let prev = split_on(s.drop_last(), sep);
        if s.last() == sep {
            prev.push(Seq::<char>::empty())
        } else {
            prev.update(prev.len() - 1, prev.last().push(s.last()))
        }
    }
}

pub proof fn lemma_split_on_nonempty(s: Seq<char>, sep: char)
    ensures
        split_on(s, sep).len() >= 1,
    decreases s.len(),
{
    if s.len() > 0 {
        lemma_split_on_nonempty(s.drop_last(), sep);
    }
}

/// `String::push`: appends the given `char` to the end of the string.
#[verifier::external_body]
pub(crate) fn push_char(s: &mut String, c: char)
    ensures
        final(s)@ == old(s)@.push(c),
{
    s.push(c);
}

/// Splits `s` at each `'\n'`, as `s.split('\n')` does.
pub fn split_lines(s: &str) -> (lines: Vec<String>)
    ensures
        lines.deep_view() == split_on(s@, '\n'),
{
    let mut lines: Vec<String> = Vec::new();
    let mut current = String::new();
    for c in it: s.chars()
        invariant
            it.seq() == s@,
            ({
                let pieces = split_on(s@.take(it.index()), '\n');
                &&& pieces.len() == lines@.len() + 1
                &&& forall|i: int| 0 <= i < lines@.len() ==> lines@[i]@ == pieces[i]
                &&& current@ == pieces.last()
            }),
    {
        proof {
            let idx = it.index();
            assert(s@.take(idx + 1).drop_last() =~= s@.take(idx));
            assert(s@.take(idx + 1).last() == c);
            lemma_split_on_nonempty(s@.take(idx), '\n');
        }
        if c == '\n' {
            let done = current;
            lines.push(done);
            current = String::new();
        } else {
            push_char(&mut current, c);
        }
    }
    proof {
        assert(s@.take(s@.len() as int) =~= s@);
    }
    lines.push(current);
    proof {
        let pieces = split_on(s@, '\n');
        assert(lines.deep_view() =~= pieces);
    }
    lines
}

/// The characters of `s`.
pub fn chars_of(s: &str) -> (chars: Vec<char>)
    ensures
        chars@ == s@,
{
    let mut chars: Vec<char> = Vec::new();
    for c in it: s.chars()
        invariant
            it.seq() == s@,
            chars@ == s@.take(it.index()),
    {
        proof {
            assert(s@.take(it.index() + 1) =~= s@.take(it.index()).push(c));
        }
        chars.push(c);
    }
    proof {
        assert(s@.take(s@.len() as int) =~= s@);
    }
    chars
}

/// The string made of the characters `chars[from..to]`.
pub fn string_from_chars(chars: &[char], from: usize, to: usize) -> (s: String)
    requires
        from <= to <= chars@.len(),
    ensures
        s@ == chars@.subrange(from as int, to as int),
{
    let mut s = String::new();
    let mut i = from;
    while i < to
        invariant
            from <= i <= to <= chars@.len(),
            s@ == chars@.subrange(from as int, i as int),
        decreases to - i,
    {
        push_char(&mut s, chars[i]);
        proof {
            assert(chars@.subrange(from as int, i + 1) =~= chars@.subrange(from as int, i as int).push(
                chars@[i as int],
            ));
        }
        i = i + 1;
    }
    s
}

/// Whether `prefix` is a prefix of `s`.
pub fn has_prefix(s: &[char], prefix: &[char]) -> (b: bool)
    ensures
        b == prefix@.is_prefix_of(s@),
{
    if prefix.len() > s.len() {
        return false;
    }
    let mut i: usize = 0;
    while i < prefix.len()
        invariant
            0 <= i <= prefix@.len() <= s@.len(),
            forall|j: int| 0 <= j < i ==> prefix@[j] == s@[j],
        decreases prefix@.len() - i,
    {
        if prefix[i] != s[i] {
            return false;
        }
        i = i + 1;
    }
    proof {
        assert(prefix@ =~= s@.take(prefix@.len() as int));
    }
    true
}

/// Whether two strings are equal.
pub fn str_equal(a: &str, b: &str) -> (eq: bool)
    ensures
        eq == (a@ == b@),
{
    a.to_owned() == b.to_owned()
}

/// The characters with the Unicode `White_Space` property, which `char::is_whitespace`
/// tests for.
pub open spec fn is_white_space(c: char) -> bool {
    let u = c as u32;
    (0x9 <= u <= 0xd) || u == 0x20 || u == 0x85 || u == 0xa0 || u == 0x1680 || (0x2000 <= u
        <= 0x200a) || u == 0x2028 || u == 0x2029 || u == 0x202f || u == 0x205f || u == 0x3000
}

/// Whether `c` has the Unicode `White_Space` property.
pub fn is_whitespace(c: char) -> (b: bool)
    ensures
        b == is_white_space(c),
{
    let u = c as u32;
    (0x9 <= u && u <= 0xd) || u == 0x20 || u == 0x85 || u == 0xa0 || u == 0x1680 || (0x2000 <= u
        && u <= 0x200a) || u == 0x2028 || u == 0x2029 || u == 0x202f || u == 0x205f || u == 0x3000
}

/// The number of white-space characters at the start of `s`.
pub open spec fn leading_white_space(s: Seq<char>) -> nat
    decreases s.len(),
{
    if s.len() > 0 && is_white_space(s[0]) {
        1 + leading_white_space(s.drop_first())
    } else {
        0
    }
}

/// The number of white-space characters at the end of `s`.
pub open spec fn trailing_white_space(s: Seq<char>) -> nat
    decreases s.len(),
{
    if s.len() > 0 && is_white_space(s.last()) {
        1 + trailing_white_space(s.drop_last())
    } else {
        0
    }
}

/// `s` without the white space at its start, as `str::trim_start` gives it.
pub open spec fn trim_start(s: Seq<char>) -> Seq<char> {
    s.skip(leading_white_space(s) as int)
}

/// `s` without the white space at its end, as `str::trim_end` gives it.
pub open spec fn trim_end(s: Seq<char>) -> Seq<char> {
    s.take(s.len() - trailing_white_space(s))
}

/// `s` without the white space at either end, as `str::trim` gives it.
pub open spec fn trim(s: Seq<char>) -> Seq<char> {
    trim_end(trim_start(s))
}

proof fn lemma_leading_white_space(s: Seq<char>, i: int)
    requires
        0 <= i <= s.len(),
        forall|j: int| 0 <= j < i ==> is_white_space(s[j]),
        i == s.len() || !is_white_space(s[i]),
    ensures
        leading_white_space(s) == i,
    decreases i,
{
    if i > 0 {
        lemma_leading_white_space(s.drop_first(), i - 1);
    }
}

proof fn lemma_trailing_white_space(s: Seq<char>, i: int)
    requires
        0 <= i <= s.len(),
        forall|j: int| s.len() - i <= j < s.len() ==> is_white_space(s[j]),
        i == s.len() || !is_white_space(s[s.len() - 1 - i]),
    ensures
        trailing_white_space(s) == i,
    decreases i,
{
    if i > 0 {
        lemma_trailing_white_space(s.drop_last(), i - 1);
    }
}

pub proof fn lemma_leading_white_space_bound(s: Seq<char>)
    ensures
        leading_white_space(s) <= s.len(),
    decreases s.len(),
{
    if s.len() > 0 && is_white_space(s[0]) {
        lemma_leading_white_space_bound(s.drop_first());
    }
}

pub proof fn lemma_trailing_white_space_bound(s: Seq<char>)
    ensures
        trailing_white_space(s) <= s.len(),
    decreases s.len(),
{
    if s.len() > 0 && is_white_space(s.last()) {
        lemma_trailing_white_space_bound(s.drop_last());
    }
}

/// `s` without its leading white space.
pub fn trim_start_string(s: &str) -> (t: String)
    ensures
        t@ == trim_start(s@),
{
    let chars = chars_of(s);
    let mut i: usize = 0;
    while i < chars.len() && is_whitespace(chars[i])
        invariant
            0 <= i <= chars@.len(),
            chars@ == s@,
            forall|j: int| 0 <= j < i ==> is_white_space(s@[j]),
        decreases chars@.len() - i,
    {
        i = i + 1;
    }
    proof {
        lemma_leading_white_space(s@, i as int);
        assert(s@.subrange(i as int, s@.len() as int) =~= s@.skip(i as int));
    }
    string_from_chars(&chars, i, chars.len())
}

/// `s` without white space at either end.
pub fn trim_string(s: &str) -> (t: String)
    ensures
        t@ == trim(s@),
{
    let chars = chars_of(s);
    let mut i: usize = 0;
    while i < chars.len() && is_whitespace(chars[i])
        invariant
            0 <= i <= chars@.len(),
            chars@ == s@,
            forall|j: int| 0 <= j < i ==> is_white_space(s@[j]),
        decreases chars@.len() - i,
    {
        i = i + 1;
    }
    let ghost front = s@.skip(i as int);
    proof {
        lemma_leading_white_space(s@, i as int);
    }
    let mut end: usize = chars.len();
    while end > i && is_whitespace(chars[end - 1])
        invariant
            0 <= i <= end <= chars@.len(),
            chars@ == s@,
            front == s@.skip(i as int),
            forall|j: int| end <= j < chars@.len() ==> is_white_space(s@[j]),
        decreases end,
    {
        end = end - 1;
    }
    proof {
        let k = chars@.len() - end;
        assert forall|j: int| front.len() - k <= j < front.len() implies is_white_space(
            front[j],
        ) by {
            assert(front[j] == s@[j + i]);
        }
        if k < front.len() {
            assert(front[front.len() - 1 - k] == s@[end - 1]);
        }
        lemma_trailing_white_space(front, k);
        assert(s@.subrange(i as int, end as int) =~= front.take(front.len() - k));
    }
    string_from_chars(&chars, i, end)
}

/// The number of occurrences of `c` in `s`.
pub open spec fn count_char(s: Seq<char>, c: char) -> nat
    decreases s.len(),
{
    if s.len() == 0 {
        0
    } else {
        count_char(s.drop_last(), c) + if s.last() == c {
            1nat
        } else {
            0nat
        }
    }
}

/// Whether `pat` occurs in `s` at index `i`.
pub open spec fn occurs_at(s: Seq<char>, pat: Seq<char>, i: int) -> bool {
    0 <= i && i + pat.len() <= s.len() && s.subrange(i, i + pat.len()) == pat
}

/// `s` with the first occurrence of `pat` taken out, as `s.replacen(pat, "", 1)` gives it.
pub open spec fn remove_first_occurrence(s: Seq<char>, pat: Seq<char>) -> Seq<char> {
    if exists|i: int| occurs_at(s, pat, i) {
        let i = choose|i: int|
            occurs_at(s, pat, i) && forall|j: int| 0 <= j < i ==> !occurs_at(s, pat, j);
        s.take(i) + s.skip(i + pat.len())
    } else {
        s
    }
}

fn occurs_at_exec(s: &Vec<char>, pat: &Vec<char>, i: usize) -> (b: bool)
    requires
        i + pat@.len() <= s@.len(),
    ensures
        b == occurs_at(s@, pat@, i as int),
{
    proof {
        // The length of a vector fits in a `usize`.
        assert(s@.len() == s.len());
    }
    let mut j: usize = 0;
    while j < pat.len()
        invariant
            0 <= j <= pat@.len(),
            i + pat@.len() <= s@.len() <= usize::MAX,
            forall|k: int| 0 <= k < j ==> s@[i + k] == pat@[k],
        decreases pat@.len() - j,
    {
        if s[i + j] != pat[j] {
            proof {
                assert(s@.subrange(i as int, i + pat@.len())[j as int] != pat@[j as int]);
            }
            return false;
        }
        j = j + 1;
    }
    proof {
        assert(s@.subrange(i as int, i + pat@.len()) =~= pat@);
    }
    true
}

/// `s` with the first occurrence of `pat` taken out.
pub fn remove_first_occurrence_string(s: &str, pat: &str) -> (t: String)
    ensures
        t@ == remove_first_occurrence(s@, pat@),
{
    let chars = chars_of(s);
    let pchars = chars_of(pat);
    if pchars.len() > chars.len() {
        proof {
            assert(!exists|i: int| occurs_at(s@, pat@, i));
        }
        return string_from_chars(&chars, 0, chars.len());
    }
    let mut i: usize = 0;
    let last_start = chars.len() - pchars.len();
    loop
        invariant_except_break
            chars@ == s@,
            pchars@ == pat@,
            last_start == chars@.len() - pchars@.len(),
            chars@.len() <= usize::MAX,
            0 <= i <= last_start,
            forall|j: int| 0 <= j < i ==> !occurs_at(s@, pat@, j),
        ensures
            chars@ == s@,
            forall|j: int| 0 <= j <= last_start ==> !occurs_at(s@, pat@, j),
            last_start == chars@.len() - pchars@.len(),
        decreases last_start - i,
    {
        if occurs_at_exec(&chars, &pchars, i) {
            proof {
                let first = choose|k: int|
                    occurs_at(s@, pat@, k) && forall|j: int| 0 <= j < k ==> !occurs_at(s@, pat@, j);
                assert(occurs_at(s@, pat@, i as int) && forall|j: int|
                    0 <= j < i ==> !occurs_at(s@, pat@, j));
                assert(first == i) by {
                    if first < i {
                    } else if first > i {
                    }
                }
            }
            let mut t = string_from_chars(&chars, 0, i);
            let rest = string_from_chars(&chars, i + pchars.len(), chars.len());
            t.append(rest.as_str());
            proof {
                assert(s@.subrange(0, i as int) =~= s@.take(i as int));
                assert(s@.subrange(i + pat@.len(), s@.len() as int) =~= s@.skip(i + pat@.len()));
            }
            return t;
        }
        if i == last_start {
            break;
        }
        i = i + 1;
    }
    proof {
        assert forall|j: int| !occurs_at(s@, pat@, j) by {
            if 0 <= j <= last_start {
            }
        }
        assert(s@.subrange(0, s@.len() as int) =~= s@);
    }
    string_from_chars(&chars, 0, chars.len())
}

/// The number of occurrences of `c` in `s`.
pub fn count_char_in(s: &str, c: char) -> (n: usize)
    ensures
        n == count_char(s@, c),
{
    let mut n: usize = 0;
    let len = s.unicode_len();
    for d in it: s.chars()
        invariant
            it.seq() == s@,
            len == s@.len(),
            n == count_char(s@.take(it.index()), c),
            n <= it.index(),
    {
        proof {
            assert(s@.take(it.index() + 1).drop_last() =~= s@.take(it.index()));
        }
        if d == c {
            n = n + 1;
        }
    }
    proof {
        assert(s@.take(s@.len() as int) =~= s@);
    }
    n
}

} // verus!

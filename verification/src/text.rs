//! Text as sequences of characters.

use vstd::prelude::*;

verus! {

/// `String::push` appends one character at the end.
pub assume_specification[ String::push ](s: &mut String, c: char)
    ensures
        final(s)@ == old(s)@.push(c),
;

/// Compares two texts.
pub fn same_text(a: &str, b: &str) -> (same: bool)
    ensures
        same == (a@ == b@),
{
    a.to_owned() == b.to_owned()
}

/// The characters of a text.
pub fn chars_of(text: &str) -> (chars: Vec<char>)
    ensures
        chars@ == text@,
{
    let mut chars: Vec<char> = Vec::new();
    for c in it: text.chars()
        invariant
            chars@ == it.seq().take(it.index()),
            it.seq() == text@,
    {
        chars.push(c);
    }
    assert(chars@ =~= text@);
    chars
}

/// The text that some characters make up.
pub fn text_of(chars: &[char]) -> (text: String)
    ensures
        text@ == chars@,
{
    let mut text = String::new();
    let mut i: usize = 0;
    while i < chars.len()
        invariant
            i <= chars.len(),
            text@ == chars@.take(i as int),
        decreases chars.len() - i,
    {
        text.push(chars[i]);
        i = i + 1;
        assert(chars@.take(i as int) =~= chars@.take(i - 1).push(chars@[i - 1]));
    }
    assert(chars@.take(chars.len() as int) =~= chars@);
    text
}

/// The decimal digit of a value below ten.
pub open spec fn digit(d: int) -> char {
    (d + 48) as char
}

/// A number in decimal, without leading zeros.
pub open spec fn decimal(n: nat) -> Seq<char>
    decreases n,
{
    if n < 10 {
        seq![digit(n as int)]
    } else {
        decimal(n / 10).push(digit((n % 10) as int))
    }
}

/// A signed number in decimal.
pub open spec fn signed_decimal(n: int) -> Seq<char> {
    if n < 0 {
        seq!['-'] + decimal((-n) as nat)
    } else {
        decimal(n as nat)
    }
}

fn digit_char(d: u64) -> (c: char)
    requires
        d < 10,
    ensures
        c == digit(d as int),
{
    if d == 0 {
        '0'
    } else if d == 1 {
        '1'
    } else if d == 2 {
        '2'
    } else if d == 3 {
        '3'
    } else if d == 4 {
        '4'
    } else if d == 5 {
        '5'
    } else if d == 6 {
        '6'
    } else if d == 7 {
        '7'
    } else if d == 8 {
        '8'
    } else {
        '9'
    }
}

/// Appends a number in decimal.
pub fn push_decimal(text: &mut String, n: u64)
    ensures
        final(text)@ == old(text)@ + decimal(n as nat),
    decreases n,
{
    if n >= 10 {
        push_decimal(text, n / 10);
    }
    let ghost before = text@;
    text.push(digit_char(n % 10));
    assert(old(text)@ + decimal(n as nat) =~= before.push(digit((n % 10) as int)));
}

/// Appends a signed number in decimal.
pub fn push_signed(text: &mut String, n: i64)
    ensures
        final(text)@ == old(text)@ + signed_decimal(n as int),
{
    if n < 0 {
        text.push('-');
        let size: u64 = if n == i64::MIN {
            0x8000_0000_0000_0000
        } else {
            (-n) as u64
        };
        push_decimal(text, size);
        assert(old(text)@ + signed_decimal(n as int) =~= old(text)@.push('-') + decimal(
            size as nat,
        ));
    } else {
        push_decimal(text, n as u64);
    }
}

/// White space, as Unicode has it.
pub open spec fn is_space(c: char) -> bool {
    let u = c as int;
    ||| 9 <= u <= 13
    ||| u == 32
    ||| u == 0x85
    ||| u == 0xA0
    ||| u == 0x1680
    ||| 0x2000 <= u <= 0x200A
    ||| u == 0x2028
    ||| u == 0x2029
    ||| u == 0x202F
    ||| u == 0x205F
    ||| u == 0x3000
}

pub fn is_whitespace(c: char) -> (r: bool)
    ensures
        r == is_space(c),
{
    let u: u32 = c as u32;
    (9 <= u && u <= 13) || u == 32 || u == 0x85 || u == 0xA0 || u == 0x1680 || (0x2000 <= u && u
        <= 0x200A) || u == 0x2028 || u == 0x2029 || u == 0x202F || u == 0x205F || u == 0x3000
}

/// The text without the white space at its start.
pub open spec fn trim_start(s: Seq<char>) -> Seq<char>
    decreases s.len(),
{
    if s.len() > 0 && is_space(s[0]) {
        trim_start(s.skip(1))
    } else {
        s
    }
}

/// The text without the white space at its end.
pub open spec fn trim_end(s: Seq<char>) -> Seq<char>
    decreases s.len(),
{
    if s.len() > 0 && is_space(s.last()) {
        trim_end(s.drop_last())
    } else {
        s
    }
}

/// The text without the white space at its ends.
pub open spec fn trim(s: Seq<char>) -> Seq<char> {
    trim_end(trim_start(s))
}

/// The text without the occurrences of `c` at its start.
pub open spec fn trim_start_matches(s: Seq<char>, c: char) -> Seq<char>
    decreases s.len(),
{
    if s.len() > 0 && s[0] == c {
        trim_start_matches(s.skip(1), c)
    } else {
        s
    }
}

/// Where `c` first occurs, or the length of the text where it does not.
pub open spec fn first_index(s: Seq<char>, c: char) -> int
    decreases s.len(),
{
    if s.len() == 0 || s[0] == c {
        0
    } else {
        1 + first_index(s.skip(1), c)
    }
}

/// The text less one carriage return at its end.
pub open spec fn strip_cr(s: Seq<char>) -> Seq<char> {
    if s.len() > 0 && s.last() == '\r' {
        s.drop_last()
    } else {
        s
    }
}

/// The lines of a text. A line ends in a newline, or a carriage return and a
/// newline, neither of which belongs to it; the last ending may be missing.
pub open spec fn lines(s: Seq<char>) -> Seq<Seq<char>>
    decreases s.len(),
{
    if s.len() == 0 {
        Seq::empty()
    } else if first_index(s, '\n') >= s.len() {
        seq![s]
    } else {
        proof {
            lemma_first_index(s, '\n');
        }
        seq![strip_cr(s.take(first_index(s, '\n')))] + lines(s.skip(first_index(s, '\n') + 1))
    }
}

/// The text with these lines, each ended by a newline.
pub open spec fn render(text: Seq<Seq<char>>) -> Seq<char>
    decreases text.len(),
{
    if text.len() == 0 {
        Seq::empty()
    } else {
        text[0].push('\n') + render(text.skip(1))
    }
}

/// The length of the run of other than white space at the start of the text.
pub open spec fn run_length(s: Seq<char>) -> int
    decreases s.len(),
{
    if s.len() == 0 || is_space(s[0]) {
        0
    } else {
        1 + run_length(s.skip(1))
    }
}

/// The words of a text: its longest runs of other than white space.
pub open spec fn words(s: Seq<char>) -> Seq<Seq<char>>
    decreases s.len(),
{
    if s.len() == 0 {
        Seq::empty()
    } else if is_space(s[0]) {
        words(s.skip(1))
    } else {
        proof {
            lemma_run_length(s);
        }
        seq![s.take(run_length(s))] + words(s.skip(run_length(s)))
    }
}

pub proof fn lemma_first_index(s: Seq<char>, c: char)
    ensures
        0 <= first_index(s, c) <= s.len(),
        first_index(s, c) < s.len() ==> s[first_index(s, c)] == c,
        forall|i: int| 0 <= i < first_index(s, c) ==> s[i] != c,
    decreases s.len(),
{
    if s.len() > 0 && s[0] != c {
        lemma_first_index(s.skip(1), c);
        assert forall|i: int| 0 <= i < first_index(s, c) implies s[i] != c by {
            if i > 0 {
                assert(s.skip(1)[i - 1] == s[i]);
            }
        }
    }
}

/// The first index is the one before which the character does not occur.
pub proof fn lemma_first_index_is(s: Seq<char>, c: char, n: int)
    requires
        0 <= n <= s.len(),
        n < s.len() ==> s[n] == c,
        forall|i: int| 0 <= i < n ==> s[i] != c,
    ensures
        first_index(s, c) == n,
{
    lemma_first_index(s, c);
    let k = first_index(s, c);
    if k < n {
        assert(s[k] != c);
    }
}

pub proof fn lemma_run_length(s: Seq<char>)
    ensures
        0 <= run_length(s) <= s.len(),
        s.len() > 0 && !is_space(s[0]) ==> run_length(s) > 0,
        run_length(s) < s.len() ==> is_space(s[run_length(s)]),
        forall|i: int| 0 <= i < run_length(s) ==> !is_space(s[i]),
    decreases s.len(),
{
    if s.len() > 0 && !is_space(s[0]) {
        lemma_run_length(s.skip(1));
        assert forall|i: int| 0 <= i < run_length(s) implies !is_space(s[i]) by {
            if i > 0 {
                assert(s.skip(1)[i - 1] == s[i]);
            }
        }
        if run_length(s) < s.len() {
            assert(s.skip(1)[run_length(s) - 1] == s[run_length(s)]);
        }
    }
}

proof fn lemma_run_length_is(s: Seq<char>, n: int)
    requires
        0 <= n <= s.len(),
        n < s.len() ==> is_space(s[n]),
        forall|i: int| 0 <= i < n ==> !is_space(s[i]),
    ensures
        run_length(s) == n,
{
    lemma_run_length(s);
    let k = run_length(s);
    if k < n {
        assert(!is_space(s[k]));
    }
}

/// No line holds a newline.
pub open spec fn single_lines(text: Seq<Seq<char>>) -> bool {
    forall|i: int, j: int|
        0 <= i < text.len() && 0 <= j < text[i].len() ==> #[trigger] text[i][j] != '\n'
}

pub proof fn lemma_lines_are_single(s: Seq<char>)
    ensures
        single_lines(lines(s)),
    decreases s.len(),
{
    if s.len() > 0 {
        let k = first_index(s, '\n');
        lemma_first_index(s, '\n');
        if k >= s.len() {
            assert(lines(s) =~= seq![s]);
        } else {
            lemma_lines_are_single(s.skip(k + 1));
            let head = strip_cr(s.take(k));
            let rest = lines(s.skip(k + 1));
            assert(lines(s) =~= seq![head] + rest);
            assert forall|i: int, j: int|
                0 <= i < lines(s).len() && 0 <= j < lines(s)[i].len() implies #[trigger] lines(
                s,
            )[i][j] != '\n' by {
                if i > 0 {
                    assert(lines(s)[i] == rest[i - 1]);
                    assert(rest[i - 1][j] != '\n');
                } else {
                    assert(lines(s)[0] == head);
                    assert(head[j] == s[j]);
                }
            }
        }
    }
}

/// Reading lines back that were written gives the same lines, each less a carriage
/// return at its end.
pub proof fn lemma_lines_of_render(text: Seq<Seq<char>>)
    requires
        single_lines(text),
    ensures
        lines(render(text)) == text.map_values(|l: Seq<char>| strip_cr(l)),
    decreases text.len(),
{
    let stripped = text.map_values(|l: Seq<char>| strip_cr(l));
    if text.len() == 0 {
        assert(lines(render(text)) =~= stripped);
    } else {
        let l = text[0];
        let rest = text.skip(1);
        let s = render(text);
        assert(s =~= l.push('\n') + render(rest));
        assert forall|i: int| 0 <= i < l.len() implies s[i] != '\n' by {
            assert(text[0][i] != '\n');
        }
        lemma_first_index_is(s, '\n', l.len() as int);
        assert(s.take(l.len() as int) =~= l);
        assert(s.skip(l.len() as int + 1) =~= render(rest));
        assert(single_lines(rest)) by {
            assert forall|i: int, j: int|
                0 <= i < rest.len() && 0 <= j < rest[i].len() implies #[trigger] rest[i][j]
                != '\n' by {
                assert(text[i + 1][j] != '\n');
            }
        }
        lemma_lines_of_render(rest);
        assert(lines(s) =~= stripped);
    }
}

/// Text appended after a line ending adds its own lines and changes no other.
pub proof fn lemma_lines_concat(a: Seq<char>, b: Seq<char>)
    requires
        a.len() == 0 || a.last() == '\n',
    ensures
        lines(a + b) == lines(a) + lines(b),
    decreases a.len(),
{
    if a.len() == 0 {
        assert(a + b =~= b);
        assert(lines(a) + lines(b) =~= lines(b));
    } else {
        lemma_first_index(a, '\n');
        let k = first_index(a, '\n');
        if k >= a.len() {
            assert(a[a.len() - 1] != '\n');
        }
        lemma_first_index_is(a + b, '\n', k);
        assert((a + b).take(k) =~= a.take(k));
        assert((a + b).skip(k + 1) =~= a.skip(k + 1) + b);
        lemma_lines_concat(a.skip(k + 1), b);
        assert(lines(a + b) =~= lines(a) + lines(b));
    }
}

/// A carriage return at the end of a line does not change its words.
pub proof fn lemma_words_of_stripped(s: Seq<char>)
    ensures
        words(strip_cr(s)) == words(s),
    decreases s.len(),
{
    if s.len() > 0 && s.last() == '\r' {
        lemma_words_before_space(s.drop_last(), '\r');
        assert(s.drop_last().push('\r') =~= s);
    }
}

proof fn lemma_words_before_space(s: Seq<char>, c: char)
    requires
        is_space(c),
    ensures
        words(s.push(c)) == words(s),
    decreases s.len(),
{
    let t = s.push(c);
    if s.len() == 0 {
        assert(t.skip(1) =~= s);
    } else if is_space(s[0]) {
        assert(t.skip(1) =~= s.skip(1).push(c));
        lemma_words_before_space(s.skip(1), c);
    } else {
        lemma_run_length(s);
        let n = run_length(s);
        lemma_run_length_is(t, n);
        assert(t.take(n) =~= s.take(n));
        assert(t.skip(n) =~= s.skip(n).push(c));
        lemma_words_before_space(s.skip(n), c);
        assert(words(t) =~= words(s));
    }
}

/// Trimming drops a carriage return at the end anyway.
pub proof fn lemma_trim_of_stripped(s: Seq<char>)
    ensures
        trim(strip_cr(s)) == trim(s),
        trim_start(strip_cr(s)).len() > 0 ==> trim_start(s).len() > 0 && trim_start(s)[0]
            == trim_start(strip_cr(s))[0],
        trim_start(strip_cr(s)).len() == 0 ==> trim_start(s).len() == 0,
{
    if s.len() > 0 && s.last() == '\r' {
        lemma_trim_start_before_space(s.drop_last(), '\r');
        assert(s.drop_last().push('\r') =~= s);
        let a = trim_start(s.drop_last());
        if a.len() > 0 {
            assert(a.push('\r').drop_last() =~= a);
        } else {
            assert(trim_end(a) =~= a);
        }
    }
}

proof fn lemma_trim_start_before_space(s: Seq<char>, c: char)
    requires
        is_space(c),
    ensures
        trim_start(s.push(c)) == if trim_start(s).len() == 0 {
            Seq::<char>::empty()
        } else {
            trim_start(s).push(c)
        },
    decreases s.len(),
{
    let t = s.push(c);
    if s.len() == 0 {
        assert(t.skip(1) =~= Seq::<char>::empty());
        assert(trim_start(Seq::<char>::empty()) =~= Seq::<char>::empty());
        assert(trim_start(t) == trim_start(t.skip(1)));
    } else if is_space(s[0]) {
        assert(t.skip(1) =~= s.skip(1).push(c));
        lemma_trim_start_before_space(s.skip(1), c);
    }
}

/// Some texts as sequences of characters.
pub open spec fn texts(v: Seq<Vec<char>>) -> Seq<Seq<char>> {
    v.map_values(|l: Vec<char>| l@)
}

/// The characters from `from` up to `to`.
pub fn part(chars: &[char], from: usize, to: usize) -> (out: Vec<char>)
    requires
        from <= to <= chars.len(),
    ensures
        out@ == chars@.subrange(from as int, to as int),
{
    let mut out: Vec<char> = Vec::new();
    let mut i: usize = from;
    while i < to
        invariant
            from <= i <= to <= chars.len(),
            out@ == chars@.subrange(from as int, i as int),
        decreases to - i,
    {
        out.push(chars[i]);
        i = i + 1;
        assert(chars@.subrange(from as int, i as int) =~= chars@.subrange(
            from as int,
            i - 1,
        ).push(chars@[i - 1]));
    }
    out
}

/// Compares two texts.
pub fn same_chars(a: &[char], b: &[char]) -> (same: bool)
    ensures
        same == (a@ == b@),
{
    if a.len() != b.len() {
        return false;
    }
    let mut i: usize = 0;
    while i < a.len()
        invariant
            i <= a.len(),
            a.len() == b.len(),
            forall|j: int| 0 <= j < i ==> a@[j] == b@[j],
        decreases a.len() - i,
    {
        if a[i] != b[i] {
            return false;
        }
        i = i + 1;
    }
    assert(a@ =~= b@);
    true
}

/// Where `c` first occurs, or the length of the text where it does not.
pub fn find_char(chars: &[char], c: char) -> (at: usize)
    ensures
        at == first_index(chars@, c),
        at <= chars.len(),
{
    let mut i: usize = 0;
    while i < chars.len() && chars[i] != c
        invariant
            i <= chars.len(),
            forall|j: int| 0 <= j < i ==> chars@[j] != c,
        decreases chars.len() - i,
    {
        i = i + 1;
    }
    proof {
        lemma_first_index_is(chars@, c, i as int);
    }
    i
}

/// Where the text starts, white space aside.
fn skip_space(chars: &[char]) -> (at: usize)
    ensures
        at <= chars.len(),
        trim_start(chars@) == chars@.skip(at as int),
{
    let mut i: usize = 0;
    assert(chars@.skip(0) =~= chars@);
    while i < chars.len() && is_whitespace(chars[i])
        invariant
            i <= chars.len(),
            trim_start(chars@) == trim_start(chars@.skip(i as int)),
        decreases chars.len() - i,
    {
        assert(chars@.skip(i as int).skip(1) =~= chars@.skip(i + 1));
        i = i + 1;
    }
    i
}

/// The text without the white space at its start.
pub fn trimmed_start(chars: &[char]) -> (out: Vec<char>)
    ensures
        out@ == trim_start(chars@),
{
    let at: usize = skip_space(chars);
    let out = part(chars, at, chars.len());
    assert(out@ =~= chars@.skip(at as int));
    out
}

/// The text without the occurrences of `c` at its start.
pub fn trimmed_start_matches(chars: &[char], c: char) -> (out: Vec<char>)
    ensures
        out@ == trim_start_matches(chars@, c),
{
    let mut i: usize = 0;
    assert(chars@.skip(0) =~= chars@);
    while i < chars.len() && chars[i] == c
        invariant
            i <= chars.len(),
            trim_start_matches(chars@, c) == trim_start_matches(chars@.skip(i as int), c),
        decreases chars.len() - i,
    {
        assert(chars@.skip(i as int).skip(1) =~= chars@.skip(i + 1));
        i = i + 1;
    }
    let out = part(chars, i, chars.len());
    assert(out@ =~= chars@.skip(i as int));
    out
}

/// The text without the white space at its ends.
pub fn trimmed(chars: &[char]) -> (out: Vec<char>)
    ensures
        out@ == trim(chars@),
{
    let at: usize = skip_space(chars);
    let mut end: usize = chars.len();
    assert(chars@.skip(at as int) =~= chars@.subrange(at as int, end as int));
    while end > at && is_whitespace(chars[end - 1])
        invariant
            at <= end <= chars.len(),
            trim(chars@) == trim_end(chars@.subrange(at as int, end as int)),
        decreases end,
    {
        assert(chars@.subrange(at as int, end as int).drop_last() =~= chars@.subrange(
            at as int,
            end - 1,
        ));
        end = end - 1;
    }
    part(chars, at, end)
}

/// The lines of a text.
pub fn split_lines(chars: &[char]) -> (out: Vec<Vec<char>>)
    ensures
        texts(out@) == lines(chars@),
{
    let mut out: Vec<Vec<char>> = Vec::new();
    let mut start: usize = 0;
    assert(chars@.skip(0) =~= chars@);
    assert(texts(out@) + lines(chars@) =~= lines(chars@));
    while start < chars.len()
        invariant
            start <= chars.len(),
            lines(chars@) == texts(out@) + lines(chars@.skip(start as int)),
        decreases chars.len() - start,
    {
        let ghost rest = chars@.skip(start as int);
        let ghost done = texts(out@);
        let mut end: usize = start;
        while end < chars.len() && chars[end] != '\n'
            invariant
                start <= end <= chars.len(),
                rest == chars@.skip(start as int),
                forall|j: int| 0 <= j < end - start ==> rest[j] != '\n',
            decreases chars.len() - end,
        {
            end = end + 1;
        }
        proof {
            lemma_first_index_is(rest, '\n', end - start);
        }
        if end == chars.len() {
            let line = part(chars, start, end);
            out.push(line);
            proof {
                assert(line@ =~= rest);
                assert(chars@.skip(end as int) =~= Seq::<char>::empty());
                assert(texts(out@) =~= done.push(rest));
                assert(lines(chars@) =~= texts(out@) + lines(chars@.skip(end as int)));
            }
            start = end;
        } else {
            let stop: usize = if end > start && chars[end - 1] == '\r' {
                end - 1
            } else {
                end
            };
            let line = part(chars, start, stop);
            out.push(line);
            proof {
                assert(rest.take(end - start) =~= chars@.subrange(start as int, end as int));
                assert(line@ =~= strip_cr(rest.take(end - start)));
                assert(rest.skip(end - start + 1) =~= chars@.skip(end + 1));
                assert(texts(out@) =~= done.push(line@));
                assert(lines(chars@) =~= texts(out@) + lines(chars@.skip(end + 1)));
            }
            start = end + 1;
        }
    }
    assert(chars@.skip(start as int) =~= Seq::<char>::empty());
    assert(texts(out@) + lines(chars@.skip(start as int)) =~= texts(out@));
    out
}

/// The words of a text.
pub fn split_words(chars: &[char]) -> (out: Vec<Vec<char>>)
    ensures
        texts(out@) == words(chars@),
{
    let mut out: Vec<Vec<char>> = Vec::new();
    let mut start: usize = 0;
    assert(chars@.skip(0) =~= chars@);
    assert(texts(out@) + words(chars@) =~= words(chars@));
    while start < chars.len()
        invariant
            start <= chars.len(),
            words(chars@) == texts(out@) + words(chars@.skip(start as int)),
        decreases chars.len() - start,
    {
        let ghost rest = chars@.skip(start as int);
        let ghost done = texts(out@);
        if is_whitespace(chars[start]) {
            assert(rest.skip(1) =~= chars@.skip(start + 1));
            start = start + 1;
        } else {
            let mut end: usize = start + 1;
            while end < chars.len() && !is_whitespace(chars[end])
                invariant
                    start < end <= chars.len(),
                    rest == chars@.skip(start as int),
                    forall|j: int| 0 <= j < end - start ==> !is_space(rest[j]),
                decreases chars.len() - end,
            {
                end = end + 1;
            }
            let word = part(chars, start, end);
            out.push(word);
            proof {
                lemma_run_length_is(rest, end - start);
                assert(word@ =~= rest.take(end - start));
                assert(rest.skip(end - start) =~= chars@.skip(end as int));
                assert(texts(out@) =~= done.push(word@));
                assert(words(chars@) =~= texts(out@) + words(chars@.skip(end as int)));
            }
            start = end;
        }
    }
    assert(chars@.skip(start as int) =~= Seq::<char>::empty());
    assert(texts(out@) + words(chars@.skip(start as int)) =~= texts(out@));
    out
}

/// The text with these lines, each ended by a newline.
pub fn join_lines(text: &Vec<Vec<char>>) -> (out: Vec<char>)
    ensures
        out@ == render(texts(text@)),
{
    let mut out: Vec<char> = Vec::new();
    let ghost all = texts(text@);
    let mut i: usize = 0;
    assert(all.skip(0) =~= all);
    while i < text.len()
        invariant
            i <= text.len(),
            all == texts(text@),
            render(all) == out@ + render(all.skip(i as int)),
        decreases text.len() - i,
    {
        let ghost before = out@;
        let line = &text[i];
        let mut j: usize = 0;
        while j < line.len()
            invariant
                i < text.len(),
                *line == text@[i as int],
                j <= line.len(),
                out@ == before + line@.take(j as int),
            decreases line.len() - j,
        {
            out.push(line[j]);
            j = j + 1;
            assert(line@.take(j as int) =~= line@.take(j - 1).push(line@[j - 1]));
        }
        out.push('\n');
        proof {
            assert(line@.take(line.len() as int) =~= line@);
            let rest = all.skip(i as int);
            assert(rest[0] == line@);
            assert(rest.skip(1) =~= all.skip(i + 1));
            assert(out@ + render(all.skip(i + 1)) =~= before + render(rest));
        }
        i = i + 1;
    }
    assert(all.skip(text.len() as int) =~= Seq::<Seq<char>>::empty());
    assert(out@ + render(all.skip(text.len() as int)) =~= out@);
    out
}

/// The lower-case form of an ASCII letter, anything else as it is.
pub open spec fn ascii_lower(c: char) -> char {
    if 'A' <= c <= 'Z' {
        (c as int + 32) as char
    } else {
        c
    }
}

/// Equal but for the case of ASCII letters.
pub open spec fn same_but_case(a: Seq<char>, b: Seq<char>) -> bool {
    a.len() == b.len() && forall|i: int|
        0 <= i < a.len() ==> ascii_lower(#[trigger] a[i]) == ascii_lower(b[i])
}

fn ascii_lowercase(c: char) -> (l: char)
    ensures
        l == ascii_lower(c),
{
    if 'A' <= c && c <= 'Z' {
        ((c as u8) + 32) as char
    } else {
        c
    }
}

/// Compares two texts, the case of ASCII letters aside.
pub fn eq_ignore_ascii_case(a: &[char], b: &[char]) -> (same: bool)
    ensures
        same == same_but_case(a@, b@),
{
    if a.len() != b.len() {
        return false;
    }
    let mut i: usize = 0;
    while i < a.len()
        invariant
            i <= a.len(),
            a.len() == b.len(),
            forall|j: int| 0 <= j < i ==> ascii_lower(#[trigger] a@[j]) == ascii_lower(b@[j]),
        decreases a.len() - i,
    {
        if ascii_lowercase(a[i]) != ascii_lowercase(b[i]) {
            return false;
        }
        i = i + 1;
    }
    true
}

// What the pieces of a text are

/// A space, a tab and the ends of lines are white space; letters, digits and the marks
/// that settings are written with are not.
pub proof fn law_white_space(c: char)
    ensures
        c == ' ' || c == '\t' || c == '\n' || c == '\r' ==> is_space(c),
        33 <= c as int <= 126 ==> !is_space(c),
        (c as int) < 9 ==> !is_space(c),
{
}

/// A number is written with the digit of its last place behind the rest of it, and a
/// digit alone as itself.
pub proof fn law_decimal_place_by_place(n: nat, d: nat)
    requires
        d < 10,
    ensures
        decimal(d).len() == 1,
        decimal(d)[0] as int == '0' as int + d,
        n > 0 ==> decimal(10 * n + d) == decimal(n) + decimal(d),
{
    if n > 0 {
        assert((10 * n + d) / 10 == n && (10 * n + d) % 10 == d);
        assert(decimal(n) + decimal(d) =~= decimal(n).push(digit(d as int)));
    }
}

/// A negative number is written as its opposite with a sign before it.
pub proof fn law_signed_decimal(n: int)
    ensures
        n >= 0 ==> signed_decimal(n) == decimal(n as nat),
        n < 0 ==> signed_decimal(n).len() > 0 && signed_decimal(n)[0] == '-' && signed_decimal(
            n,
        ).skip(1) == signed_decimal(-n),
{
    if n < 0 {
        assert(signed_decimal(n).skip(1) =~= decimal((-n) as nat));
    }
}

/// Trimming takes white space away from both ends and nothing else: what is left
/// stands in the text, with white space before it and behind it.
pub proof fn law_trimming_takes_only_white_space(s: Seq<char>)
    ensures
        exists|a: int, b: int|
            #![trigger s.subrange(a, b)]
            0 <= a <= b <= s.len() && trim(s) == s.subrange(a, b) && (forall|i: int|
                0 <= i < a ==> is_space(#[trigger] s[i])) && (forall|i: int|
                b <= i < s.len() ==> is_space(#[trigger] s[i])),
        trim(s).len() > 0 ==> !is_space(trim(s)[0]) && !is_space(trim(s).last()),
{
    lemma_trim_start_part(s);
    let a = s.len() - trim_start(s).len();
    let t = trim_start(s);
    lemma_trim_end_part(t);
    let b = a + trim_end(t).len();
    assert(trim(s) =~= s.subrange(a, b));
    assert forall|i: int| b <= i < s.len() implies is_space(#[trigger] s[i]) by {
        assert(t[i - a] == s[i]);
    }
}

proof fn lemma_trim_start_part(s: Seq<char>)
    ensures
        trim_start(s).len() <= s.len(),
        trim_start(s) == s.skip(s.len() - trim_start(s).len()),
        forall|i: int| 0 <= i < s.len() - trim_start(s).len() ==> is_space(#[trigger] s[i]),
        trim_start(s).len() > 0 ==> !is_space(trim_start(s)[0]),
    decreases s.len(),
{
    if s.len() > 0 && is_space(s[0]) {
        let rest = s.skip(1);
        lemma_trim_start_part(rest);
        assert(trim_start(s) =~= s.skip(s.len() - trim_start(s).len()));
        assert forall|i: int| 0 <= i < s.len() - trim_start(s).len() implies is_space(
            #[trigger] s[i],
        ) by {
            if i > 0 {
                assert(rest[i - 1] == s[i]);
            }
        }
    } else {
        assert(s.skip(0) =~= s);
    }
}

proof fn lemma_trim_end_part(s: Seq<char>)
    ensures
        trim_end(s).len() <= s.len(),
        trim_end(s) == s.take(trim_end(s).len() as int),
        forall|i: int| trim_end(s).len() <= i < s.len() ==> is_space(#[trigger] s[i]),
        trim_end(s).len() > 0 ==> !is_space(trim_end(s).last()),
    decreases s.len(),
{
    if s.len() > 0 && is_space(s.last()) {
        let rest = s.drop_last();
        lemma_trim_end_part(rest);
        assert(trim_end(s) =~= s.take(trim_end(s).len() as int));
        assert forall|i: int| trim_end(s).len() <= i < s.len() implies is_space(
            #[trigger] s[i],
        ) by {
            if i < rest.len() {
                assert(rest[i] == s[i]);
            }
        }
    } else {
        assert(s.take(s.len() as int) =~= s);
    }
}

/// A text with a newline in it has the line before that newline and then the lines of
/// what follows; a carriage return right before the newline belongs to the line's end.
pub proof fn law_lines_end_at_newlines(line: Seq<char>, rest: Seq<char>)
    requires
        forall|i: int| 0 <= i < line.len() ==> #[trigger] line[i] != '\n',
    ensures
        line.len() == 0 || line.last() != '\r' ==> lines(line.push('\n') + rest) == seq![line]
            + lines(rest),
        lines(line.push('\r').push('\n') + rest) == seq![line] + lines(rest),
        line.len() > 0 ==> lines(line) == seq![line],
        lines(Seq::<char>::empty()) == Seq::<Seq<char>>::empty(),
{
    let a = line.push('\n') + rest;
    assert forall|i: int| 0 <= i < line.len() implies a[i] != '\n' by {
        assert(a[i] == line[i]);
    }
    lemma_first_index_is(a, '\n', line.len() as int);
    assert(a.take(line.len() as int) =~= line);
    assert(a.skip(line.len() as int + 1) =~= rest);
    let b = line.push('\r').push('\n') + rest;
    assert forall|i: int| 0 <= i < line.len() + 1 implies b[i] != '\n' by {
        if i < line.len() {
            assert(b[i] == line[i]);
        }
    }
    lemma_first_index_is(b, '\n', line.len() as int + 1);
    assert(b.take(line.len() as int + 1) =~= line.push('\r'));
    assert(line.push('\r').drop_last() =~= line);
    assert(b.skip(line.len() as int + 2) =~= rest);
    if line.len() > 0 {
        lemma_first_index_is(line, '\n', line.len() as int);
    }
}

/// White space parts the words of a text, however much of it there is.
pub proof fn law_words_are_parted_by_white_space(word: Seq<char>, c: char, rest: Seq<char>)
    requires
        forall|i: int| 0 <= i < word.len() ==> !is_space(#[trigger] word[i]),
        is_space(c),
    ensures
        word.len() > 0 ==> words(word.push(c) + rest) == seq![word] + words(rest),
        words(seq![c] + rest) == words(rest),
        word.len() > 0 ==> words(word) == seq![word],
{
    assert((seq![c] + rest).skip(1) =~= rest);
    if word.len() > 0 {
        let n = word.len() as int;
        let a = word.push(c) + rest;
        assert forall|i: int| 0 <= i < n implies !is_space(a[i]) by {
            assert(a[i] == word[i]);
        }
        lemma_run_length_is(a, n);
        assert(a.take(n) =~= word);
        assert(a.skip(n) =~= seq![c] + rest);
        assert(words(a.skip(n)) == words(rest));
        assert(!is_space(a[0]));
        assert(words(a) == seq![a.take(n)] + words(a.skip(n)));
        lemma_run_length_is(word, n);
        assert(word.take(n) =~= word);
        assert(word.skip(n) =~= Seq::<char>::empty());
        assert(words(Seq::<char>::empty()) =~= Seq::<Seq<char>>::empty());
        assert(!is_space(word[0]));
        assert(words(word) =~= seq![word]);
    }
}

/// Comparing without regard to case tells texts apart by anything but the case of the
/// letters A to Z: characters at one place are the same, or one is the capital of the
/// other.
pub proof fn law_case_is_all_that_is_overlooked(a: Seq<char>, b: Seq<char>)
    ensures
        same_but_case(a, a),
        same_but_case(a, b) ==> same_but_case(b, a) && a.len() == b.len(),
        same_but_case(a, b) ==> forall|i: int|
            #![trigger a[i]]
            0 <= i < a.len() ==> a[i] == b[i] || (65 <= a[i] as int <= 90 && b[i] as int == a[i] as int
                + 32) || (65 <= b[i] as int <= 90 && a[i] as int == b[i] as int + 32),
        a.len() == b.len() && (forall|i: int|
            0 <= i < a.len() ==> (#[trigger] a[i]) == b[i] || (65 <= a[i] as int <= 90
                && b[i] as int == a[i] as int + 32)) ==> same_but_case(a, b),
{
    if same_but_case(a, b) {
        assert forall|i: int| 0 <= i < b.len() implies ascii_lower(#[trigger] b[i])
            == ascii_lower(a[i]) by {
            assert(ascii_lower(a[i]) == ascii_lower(b[i]));
        }
    }
}

} // verus!

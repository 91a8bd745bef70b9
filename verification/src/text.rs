//! Text as sequences of characters: the small vocabulary in which the rest of
//! the library speaks of names, values, lines and rendered numbers.

use vstd::prelude::*;

verus! {

/// `String::push` appends one character.
pub assume_specification[ String::push ](s: &mut String, c: char)
    ensures
        final(s)@ == old(s)@.push(c),
;

/// The characters with the Unicode property `White_Space`.
pub open spec fn white(c: char) -> bool {
    ||| '\u{9}' <= c <= '\u{d}'
    ||| c == ' '
    ||| c == '\u{85}'
    ||| c == '\u{a0}'
    ||| c == '\u{1680}'
    ||| '\u{2000}' <= c <= '\u{200a}'
    ||| c == '\u{2028}'
    ||| c == '\u{2029}'
    ||| c == '\u{202f}'
    ||| c == '\u{205f}'
    ||| c == '\u{3000}'
}

/// `s` without its leading white characters.
pub open spec fn trimmed_start(s: Seq<char>) -> Seq<char>
    decreases s.len(),
{
    if s.len() > 0 && white(s[0]) {
        trimmed_start(s.skip(1))
    } else {
        s
    }
}

/// `s` without its trailing white characters.
pub open spec fn trimmed_end(s: Seq<char>) -> Seq<char>
    decreases s.len(),
{
    if s.len() > 0 && white(s.last()) {
        trimmed_end(s.drop_last())
    } else {
        s
    }
}

/// `s` without leading and trailing white characters.
pub open spec fn trimmed(s: Seq<char>) -> Seq<char> {
    trimmed_end(trimmed_start(s))
}

/// The pieces of `s` between occurrences of `sep`, empty ones included.
pub open spec fn pieces(s: Seq<char>, sep: char) -> Seq<Seq<char>>
    decreases s.len(),
{
    match s.index_of_first(sep) {
        Some(i) if 0 <= i < s.len() => seq![s.take(i)] + pieces(s.skip(i + 1), sep),
        _ => seq![s],
    }
}

/// The pieces of `s` between occurrences of `sep`, at most `n` of them: the last
/// holds the rest.
pub open spec fn first_pieces(s: Seq<char>, sep: char, n: nat) -> Seq<Seq<char>>
    decreases n,
{
    match s.index_of_first(sep) {
        Some(i) if n > 1 => seq![s.take(i)] + first_pieces(s.skip(i + 1), sep, (n - 1) as nat),
        _ => seq![s],
    }
}

/// `s` without one trailing carriage return.
pub open spec fn without_cr(s: Seq<char>) -> Seq<char> {
    if s.len() > 0 && s.last() == '\r' {
        s.drop_last()
    } else {
        s
    }
}

/// The lines of `s`. A line ends in a line feed, alone or after a carriage
/// return; the end of the last line is optional.
pub open spec fn lines_of(s: Seq<char>) -> Seq<Seq<char>>
    decreases s.len(),
{
    if s.len() == 0 {
        Seq::empty()
    } else {
        match s.index_of_first('\n') {
            Some(i) if 0 <= i < s.len() => seq![without_cr(s.take(i))] + lines_of(s.skip(i + 1)),
            _ => seq![s],
        }
    }
}

/// The maximal runs of characters that are not white.
pub open spec fn words(s: Seq<char>) -> Seq<Seq<char>> {
    words_after(Seq::empty(), s)
}

/// The words of `run + s`, where `run` holds no white character.
pub open spec fn words_after(run: Seq<char>, s: Seq<char>) -> Seq<Seq<char>>
    decreases s.len(),
{
    let done = if run.len() > 0 {
        seq![run]
    } else {
        Seq::empty()
    };
    if s.len() == 0 {
        done
    } else if white(s[0]) {
        done + words_after(Seq::empty(), s.skip(1))
    } else {
        words_after(run.push(s[0]), s.skip(1))
    }
}

/// The concatenation of `parts` with `sep` between neighbours.
pub open spec fn joined(parts: Seq<Seq<char>>, sep: Seq<char>) -> Seq<char>
    decreases parts.len(),
{
    if parts.len() == 0 {
        Seq::empty()
    } else if parts.len() == 1 {
        parts[0]
    } else {
        joined(parts.drop_last(), sep) + sep + parts.last()
    }
}

/// Lexicographic order by code point, which is the order of `str`.
pub open spec fn before(a: Seq<char>, b: Seq<char>) -> bool
    decreases a.len(),
{
    if b.len() == 0 {
        false
    } else if a.len() == 0 {
        true
    } else if a[0] != b[0] {
        a[0] < b[0]
    } else {
        before(a.skip(1), b.skip(1))
    }
}

/// The digit character of a number below 16, in lower case.
pub open spec fn digit_char(d: nat) -> char {
    if d < 10 {
        ('0' as int + d) as char
    } else {
        ('a' as int + (d - 10)) as char
    }
}

/// `n` in decimal.
pub open spec fn decimal(n: nat) -> Seq<char>
    decreases n,
{
    if n < 10 {
        seq![digit_char(n)]
    } else {
        decimal(n / 10).push(digit_char(n % 10))
    }
}

/// The last `width` hexadecimal digits of `n`, in lower case.
pub open spec fn hexadecimal(n: nat, width: nat) -> Seq<char>
    decreases width,
{
    if width == 0 {
        Seq::empty()
    } else {
        hexadecimal(n / 16, (width - 1) as nat).push(digit_char(n % 16))
    }
}

/// The value of a hexadecimal digit of either case.
pub open spec fn digit_value(c: char) -> Option<nat> {
    if '0' <= c <= '9' {
        Some((c as int - '0' as int) as nat)
    } else if 'a' <= c <= 'f' {
        Some((c as int - 'a' as int + 10) as nat)
    } else if 'A' <= c <= 'F' {
        Some((c as int - 'A' as int + 10) as nat)
    } else {
        None
    }
}

/// The number that a sequence of hexadecimal digits writes.
pub open spec fn hex_number(s: Seq<char>) -> nat
    decreases s.len(),
{
    if s.len() == 0 {
        0
    } else {
        match digit_value(s.last()) {
            Some(d) => hex_number(s.drop_last()) * 16 + d,
            None => 0,
        }
    }
}

/// Whether `s` is a non-empty sequence of hexadecimal digits.
pub open spec fn hex_digits(s: Seq<char>) -> bool {
    s.len() > 0 && forall|i: int| 0 <= i < s.len() ==> digit_value(#[trigger] s[i]) is Some
}

/// `s` without one leading plus sign.
pub open spec fn without_plus(s: Seq<char>) -> Seq<char> {
    if s.len() > 0 && s[0] == '+' {
        s.skip(1)
    } else {
        s
    }
}

/// The unsigned 64-bit number that `s` writes in hexadecimal, if it writes one.
pub open spec fn hex_u64(s: Seq<char>) -> Option<u64> {
    let d = without_plus(s);
    if hex_digits(d) && hex_number(d) <= u64::MAX {
        Some(hex_number(d) as u64)
    } else {
        None
    }
}

/// An ASCII capital in lower case; any other character as it is.
pub open spec fn ascii_lower(c: char) -> char {
    if 'A' <= c <= 'Z' {
        (c as int + 32) as char
    } else {
        c
    }
}

/// Equality up to the case of ASCII letters.
pub open spec fn same_ignoring_case(a: Seq<char>, b: Seq<char>) -> bool {
    &&& a.len() == b.len()
    &&& forall|i: int| 0 <= i < a.len() ==> ascii_lower(#[trigger] a[i]) == ascii_lower(b[i])
}

/// Views of a vector of strings, one by one.
pub open spec fn texts(v: Seq<String>) -> Seq<Seq<char>> {
    v.map_values(|s: String| s@)
}

/// Views of a vector of character vectors, one by one.
pub open spec fn rows(v: Seq<Vec<char>>) -> Seq<Seq<char>> {
    v.map_values(|s: Vec<char>| s@)
}

/// `before` orders no text before itself.
pub proof fn lemma_before_irreflexive(a: Seq<char>)
    ensures
        !before(a, a),
    decreases a.len(),
{
    if a.len() > 0 {
        lemma_before_irreflexive(a.skip(1));
    }
}

/// `before` is transitive.
pub proof fn lemma_before_transitive(a: Seq<char>, b: Seq<char>, c: Seq<char>)
    requires
        before(a, b),
        before(b, c),
    ensures
        before(a, c),
    decreases a.len(),
{
    if a.len() > 0 && a[0] == b[0] && b[0] == c[0] {
        lemma_before_transitive(a.skip(1), b.skip(1), c.skip(1));
    }
}

/// Of two different texts one is before the other.
pub proof fn lemma_before_total(a: Seq<char>, b: Seq<char>)
    ensures
        before(a, b) || before(b, a) || a == b,
    decreases a.len(),
{
    if a.len() > 0 && b.len() > 0 && a[0] == b[0] {
        lemma_before_total(a.skip(1), b.skip(1));
        if a.skip(1) == b.skip(1) {
            assert(a =~= seq![a[0]] + a.skip(1));
            assert(b =~= seq![b[0]] + b.skip(1));
        }
    } else if a.len() == 0 && b.len() == 0 {
        assert(a =~= b);
    }
}

/// No text is before another that is before it.
pub proof fn lemma_before_asymmetric(a: Seq<char>, b: Seq<char>)
    requires
        before(a, b),
    ensures
        !before(b, a),
        a != b,
{
    lemma_before_irreflexive(a);
    if before(b, a) {
        lemma_before_transitive(a, b, a);
    }
}

proof fn lemma_first_is(s: Seq<char>, c: char, i: int)
    requires
        0 <= i < s.len(),
        s[i] == c,
        forall|j: int| 0 <= j < i ==> s[j] != c,
    ensures
        s.index_of_first(c) == Some(i),
{
    s.index_of_first_ensures(c);
}

proof fn lemma_first_none(s: Seq<char>, c: char)
    requires
        forall|j: int| 0 <= j < s.len() ==> s[j] != c,
    ensures
        s.index_of_first(c) is None,
{
    s.index_of_first_ensures(c);
}

/// The characters of a string.
pub fn chars_of(s: &str) -> (out: Vec<char>)
    ensures
        out@ == s@,
{
    let mut out: Vec<char> = Vec::new();
    for c in it: s.chars()
        invariant
            it.seq() == s@,
            out@ == s@.take(it.index() as int),
    {
        out.push(c);
        assert(s@.take(it.index() as int).push(c) =~= s@.take(it.index() + 1));
    }
    assert(s@.take(s@.len() as int) =~= s@);
    out
}

/// The string made of the given characters.
pub fn string_of(v: &Vec<char>) -> (out: String)
    ensures
        out@ == v@,
{
    let mut out = String::new();
    for i in 0..v.len()
        invariant
            out@ == v@.take(i as int),
    {
        out.push(v[i]);
        assert(v@.take(i as int).push(v@[i as int]) =~= v@.take(i + 1));
    }
    assert(v@.take(v@.len() as int) =~= v@);
    out
}

/// The characters of `v` from `from` up to, not counting, `to`.
pub fn slice_of(v: &Vec<char>, from: usize, to: usize) -> (out: Vec<char>)
    requires
        from <= to <= v.len(),
    ensures
        out@ == v@.subrange(from as int, to as int),
{
    let mut out: Vec<char> = Vec::new();
    for i in from..to
        invariant
            from <= i <= to <= v.len(),
            out@ == v@.subrange(from as int, i as int),
    {
        out.push(v[i]);
        assert(v@.subrange(from as int, i as int).push(v@[i as int]) =~= v@.subrange(
            from as int,
            i + 1,
        ));
    }
    out
}

/// A copy of a character vector.
pub fn copy_of(v: &Vec<char>) -> (out: Vec<char>)
    ensures
        out@ == v@,
{
    let out = slice_of(v, 0, v.len());
    assert(out@ =~= v@);
    out
}

/// Whether two texts are equal.
pub fn same_text(a: &str, b: &str) -> (r: bool)
    ensures
        r == (a@ == b@),
{
    a.to_owned() == b.to_owned()
}

/// Whether a text is among the given strings.
pub fn contains_text(v: &Vec<String>, t: &str) -> (r: bool)
    ensures
        r == texts(v@).contains(t@),
{
    for i in 0..v.len()
        invariant
            forall|j: int| 0 <= j < i ==> (#[trigger] texts(v@)[j]) != t@,
    {
        assert(texts(v@)[i as int] == v@[i as int]@);
        if same_text(v[i].as_str(), t) {
            return true;
        }
    }
    false
}

/// Whether two character vectors are equal.
pub fn same_chars(a: &Vec<char>, b: &Vec<char>) -> (r: bool)
    ensures
        r == (a@ == b@),
{
    if a.len() != b.len() {
        return false;
    }
    for i in 0..a.len()
        invariant
            a.len() == b.len(),
            forall|j: int| 0 <= j < i ==> a@[j] == b@[j],
    {
        if a[i] != b[i] {
            return false;
        }
    }
    assert(a@ =~= b@);
    true
}

/// Whether a character is white.
pub fn is_white(c: char) -> (r: bool)
    ensures
        r == white(c),
{
    ('\u{9}' <= c && c <= '\u{d}') || c == ' ' || c == '\u{85}' || c == '\u{a0}' || c == '\u{1680}'
        || ('\u{2000}' <= c && c <= '\u{200a}') || c == '\u{2028}' || c == '\u{2029}' || c
        == '\u{202f}' || c == '\u{205f}' || c == '\u{3000}'
}

/// The text without leading and trailing white characters.
pub fn trim(v: &Vec<char>) -> (out: Vec<char>)
    ensures
        out@ == trimmed(v@),
{
    let n: usize = v.len();
    let mut from: usize = 0;
    assert(v@.skip(0) =~= v@);
    while from < n && is_white(v[from])
        invariant
            from <= n == v.len(),
            trimmed_start(v@.skip(from as int)) == trimmed_start(v@),
        decreases n - from,
    {
        assert(v@.skip(from as int).skip(1) =~= v@.skip(from + 1));
        from += 1;
    }
    let ghost s = v@.skip(from as int);
    assert(trimmed_start(v@) == s);
    let mut to: usize = n;
    assert(v@.subrange(from as int, to as int) =~= s);
    while to > from && is_white(v[to - 1])
        invariant
            from <= to <= n == v.len(),
            trimmed_end(v@.subrange(from as int, to as int)) == trimmed_end(s),
        decreases to,
    {
        assert(v@.subrange(from as int, to as int).drop_last() =~= v@.subrange(
            from as int,
            to - 1,
        ));
        to -= 1;
    }
    slice_of(v, from, to)
}

/// The text without trailing white characters.
pub fn trim_end(v: &Vec<char>) -> (out: Vec<char>)
    ensures
        out@ == trimmed_end(v@),
{
    let mut to: usize = v.len();
    assert(v@.take(to as int) =~= v@);
    while to > 0 && is_white(v[to - 1])
        invariant
            to <= v.len(),
            trimmed_end(v@.take(to as int)) == trimmed_end(v@),
        decreases to,
    {
        assert(v@.take(to as int).drop_last() =~= v@.take(to - 1));
        to -= 1;
    }
    let out = slice_of(v, 0, to);
    assert(out@ =~= v@.take(to as int));
    out
}

/// The first position of `c`, if it occurs.
pub fn find(v: &Vec<char>, c: char) -> (out: Option<usize>)
    ensures
        match out {
            Some(i) => v@.index_of_first(c) == Some(i as int) && i < v.len(),
            None => v@.index_of_first(c) is None,
        },
{
    for i in 0..v.len()
        invariant
            forall|j: int| 0 <= j < i ==> v@[j] != c,
    {
        if v[i] == c {
            proof {
                lemma_first_is(v@, c, i as int);
            }
            return Some(i);
        }
    }
    proof {
        lemma_first_none(v@, c);
    }
    None
}

/// The last position of `c`, if it occurs.
pub fn find_last(v: &Vec<char>, c: char) -> (out: Option<usize>)
    ensures
        match out {
            Some(i) => v@.index_of_last(c) == Some(i as int) && i < v.len(),
            None => v@.index_of_last(c) is None,
        },
{
    let mut i: usize = v.len();
    while i > 0
        invariant
            i <= v.len(),
            forall|j: int| i <= j < v.len() ==> v@[j] != c,
        decreases i,
    {
        i -= 1;
        if v[i] == c {
            proof {
                v@.index_of_last_ensures(c);
            }
            return Some(i);
        }
    }
    proof {
        v@.index_of_last_ensures(c);
    }
    None
}

/// The pieces between occurrences of `sep`.
pub fn split(v: &Vec<char>, sep: char) -> (out: Vec<Vec<char>>)
    ensures
        rows(out@) == pieces(v@, sep),
        out.len() > 0,
{
    let mut out: Vec<Vec<char>> = Vec::new();
    let mut start: usize = 0;
    assert(v@.skip(0) =~= v@);
    assert(rows(out@) + pieces(v@, sep) =~= pieces(v@, sep));
    for i in 0..v.len()
        invariant
            start <= i <= v.len(),
            forall|j: int| start <= j < i ==> v@[j] != sep,
            rows(out@) + pieces(v@.skip(start as int), sep) == pieces(v@, sep),
    {
        if v[i] == sep {
            let ghost rest = v@.skip(start as int);
            let ghost prev = rows(out@);
            proof {
                lemma_first_is(rest, sep, i - start);
                assert(rest.take(i - start) =~= v@.subrange(start as int, i as int));
                assert(rest.skip(i - start + 1) =~= v@.skip(i + 1));
            }
            let piece = slice_of(v, start, i);
            out.push(piece);
            proof {
                assert(rows(out@) =~= prev.push(piece@));
                assert(rows(out@) + pieces(v@.skip(i + 1), sep) =~= prev + pieces(rest, sep));
            }
            start = i + 1;
        }
    }
    let ghost rest = v@.skip(start as int);
    let ghost prev = rows(out@);
    proof {
        lemma_first_none(rest, sep);
        assert(rest =~= v@.subrange(start as int, v@.len() as int));
    }
    let piece = slice_of(v, start, v.len());
    out.push(piece);
    assert(rows(out@) =~= prev + seq![rest]);
    out
}

/// The pieces between occurrences of `sep`, at most `n` of them.
pub fn split_first(v: &Vec<char>, sep: char, n: usize) -> (out: Vec<Vec<char>>)
    requires
        n > 0,
    ensures
        rows(out@) == first_pieces(v@, sep, n as nat),
        out.len() > 0,
{
    let mut out: Vec<Vec<char>> = Vec::new();
    let mut rest = copy_of(v);
    let mut left: usize = n;
    assert(rows(out@) + first_pieces(v@, sep, n as nat) =~= first_pieces(v@, sep, n as nat));
    while left > 1
        invariant
            0 < left <= n,
            rows(out@) + first_pieces(rest@, sep, left as nat) == first_pieces(v@, sep, n as nat),
        decreases left,
    {
        let ghost prev = rows(out@);
        match find(&rest, sep) {
            Some(i) => {
                let piece = slice_of(&rest, 0, i);
                let tail = slice_of(&rest, i + 1, rest.len());
                proof {
                    assert(piece@ =~= rest@.take(i as int));
                    assert(tail@ =~= rest@.skip(i + 1));
                }
                let ghost whole = rest@;
                let ghost head = piece@;
                out.push(piece);
                assert(rows(out@) =~= prev.push(head));
                assert(rows(out@) + first_pieces(tail@, sep, (left - 1) as nat) =~= prev + first_pieces(
                    whole,
                    sep,
                    left as nat,
                ));
                rest = tail;
                left -= 1;
            },
            None => {
                let ghost whole = rest@;
                out.push(rest);
                assert(rows(out@) =~= prev + seq![whole]);
                return out;
            },
        }
    }
    let ghost prev = rows(out@);
    let ghost whole = rest@;
    out.push(rest);
    assert(rows(out@) =~= prev + seq![whole]);
    out
}

/// Whether `s` begins with `prefix`.
pub fn begins_with(v: &Vec<char>, prefix: &Vec<char>) -> (r: bool)
    ensures
        r == prefix@.is_prefix_of(v@),
{
    if v.len() < prefix.len() {
        return false;
    }
    let head = slice_of(v, 0, prefix.len());
    same_chars(&head, prefix)
}

/// The lines of a text.
pub fn split_lines(v: &Vec<char>) -> (out: Vec<Vec<char>>)
    ensures
        rows(out@) == lines_of(v@),
{
    let mut out: Vec<Vec<char>> = Vec::new();
    let mut start: usize = 0;
    assert(v@.skip(0) =~= v@);
    assert(rows(out@) + lines_of(v@) =~= lines_of(v@));
    for i in 0..v.len()
        invariant
            start <= i <= v.len(),
            forall|j: int| start <= j < i ==> v@[j] != '\n',
            rows(out@) + lines_of(v@.skip(start as int)) == lines_of(v@),
    {
        if v[i] == '\n' {
            let ghost rest = v@.skip(start as int);
            let ghost prev = rows(out@);
            proof {
                lemma_first_is(rest, '\n', i - start);
                assert(rest.take(i - start) =~= v@.subrange(start as int, i as int));
                assert(rest.skip(i - start + 1) =~= v@.skip(i + 1));
                assert(v@.subrange(start as int, i as int).len() > 0 ==> v@.subrange(
                    start as int,
                    i as int,
                ).drop_last() =~= v@.subrange(start as int, i - 1));
            }
            let end: usize = if i > start && v[i - 1] == '\r' {
                i - 1
            } else {
                i
            };
            let piece = slice_of(v, start, end);
            out.push(piece);
            proof {
                assert(piece@ == without_cr(rest.take(i - start)));
                assert(rows(out@) =~= prev.push(piece@));
                assert(rows(out@) + lines_of(v@.skip(i + 1)) =~= prev + lines_of(rest));
            }
            start = i + 1;
        }
    }
    let ghost rest = v@.skip(start as int);
    let ghost prev = rows(out@);
    if start < v.len() {
        proof {
            lemma_first_none(rest, '\n');
            assert(rest =~= v@.subrange(start as int, v@.len() as int));
        }
        let piece = slice_of(v, start, v.len());
        out.push(piece);
        assert(rows(out@) =~= prev + seq![rest]);
    } else {
        assert(prev + lines_of(rest) =~= prev);
    }
    out
}

/// The maximal runs of characters that are not white.
pub fn split_words(v: &Vec<char>) -> (out: Vec<Vec<char>>)
    ensures
        rows(out@) == words(v@),
{
    let mut out: Vec<Vec<char>> = Vec::new();
    let mut run: Vec<char> = Vec::new();
    proof {
        assert(v@.skip(0) =~= v@);
        assert(run@ =~= Seq::empty());
        assert(rows(out@) + words(v@) =~= words(v@));
    }
    for i in 0..v.len()
        invariant
            rows(out@) + words_after(run@, v@.skip(i as int)) == words(v@),
    {
        let ghost rest = v@.skip(i as int);
        let ghost prev = rows(out@);
        assert(rest.skip(1) =~= v@.skip(i + 1));
        if is_white(v[i]) {
            let ghost last = run@;
            if run.len() > 0 {
                out.push(run);
                run = Vec::new();
                assert(rows(out@) =~= prev + seq![last]);
            }
            proof {
                assert(run@ =~= Seq::empty());
                assert(rows(out@) + words_after(run@, v@.skip(i + 1)) =~= prev + words_after(
                    last,
                    rest,
                ));
            }
        } else {
            run.push(v[i]);
        }
    }
    let ghost prev = rows(out@);
    let ghost last = run@;
    assert(v@.skip(v@.len() as int).len() == 0);
    if run.len() > 0 {
        out.push(run);
        assert(rows(out@) =~= prev + seq![last]);
    } else {
        assert(prev + words_after(last, v@.skip(v@.len() as int)) =~= prev);
    }
    out
}

/// Appends `part` to `out`.
pub fn push_text(out: &mut String, part: &str)
    ensures
        final(out)@ == old(out)@ + part@,
{
    out.append(part);
}

/// `parts` with `sep` between neighbours.
pub fn join(parts: &Vec<String>, sep: &str) -> (out: String)
    ensures
        out@ == joined(texts(parts@), sep@),
{
    let mut out = String::new();
    for i in 0..parts.len()
        invariant
            out@ == joined(texts(parts@).take(i as int), sep@),
    {
        let ghost t = texts(parts@);
        proof {
            assert(t.take(i + 1).drop_last() =~= t.take(i as int));
            assert(t.take(i + 1).last() == parts@[i as int]@);
        }
        if i > 0 {
            push_text(&mut out, sep);
        } else {
            assert(out@ =~= Seq::empty());
            assert(out@ + parts@[0]@ =~= parts@[0]@);
        }
        push_text(&mut out, parts[i].as_str());
    }
    assert(texts(parts@).take(parts@.len() as int) =~= texts(parts@));
    out
}

/// Whether `a` is before `b`.
pub fn is_before(a: &str, b: &str) -> (r: bool)
    ensures
        r == before(a@, b@),
{
    let u = chars_of(a);
    let v = chars_of(b);
    let mut i: usize = 0;
    assert(u@.skip(0) =~= u@);
    assert(v@.skip(0) =~= v@);
    while i < u.len() && i < v.len()
        invariant
            u@ == a@,
            v@ == b@,
            i <= u.len(),
            i <= v.len(),
            before(u@.skip(i as int), v@.skip(i as int)) == before(a@, b@),
        decreases u.len() - i,
    {
        if u[i] != v[i] {
            return u[i] < v[i];
        }
        assert(u@.skip(i as int).skip(1) =~= u@.skip(i + 1));
        assert(v@.skip(i as int).skip(1) =~= v@.skip(i + 1));
        i += 1;
    }
    i == u.len() && i < v.len()
}

/// The digit character of a number below 16.
pub fn digit(d: u64) -> (c: char)
    requires
        d < 16,
    ensures
        c == digit_char(d as nat),
{
    if d < 10 {
        (('0' as u8) + (d as u8)) as char
    } else {
        (('a' as u8) + ((d - 10) as u8)) as char
    }
}

/// Appends `n` in decimal to `out`.
pub fn push_decimal(out: &mut String, n: u64)
    ensures
        final(out)@ == old(out)@ + decimal(n as nat),
    decreases n,
{
    let ghost before_call = out@;
    if n >= 10 {
        push_decimal(out, n / 10);
    }
    out.push(digit(n % 10));
    proof {
        if n >= 10 {
            assert(out@ =~= before_call + decimal((n / 10) as nat).push(digit_char((n % 10) as nat)));
        } else {
            assert(out@ =~= before_call + seq![digit_char(n as nat)]);
        }
    }
}

/// `n` in decimal.
pub fn decimal_text(n: u64) -> (out: String)
    ensures
        out@ == decimal(n as nat),
{
    let mut out = String::new();
    push_decimal(&mut out, n);
    assert(out@ =~= decimal(n as nat));
    out
}

fn push_hexadecimal(out: &mut String, n: u64, width: u64)
    ensures
        final(out)@ == old(out)@ + hexadecimal(n as nat, width as nat),
    decreases width,
{
    let ghost before_call = out@;
    if width > 0 {
        push_hexadecimal(out, n / 16, width - 1);
        out.push(digit(n % 16));
        assert(out@ =~= before_call + hexadecimal((n / 16) as nat, (width - 1) as nat).push(
            digit_char((n % 16) as nat),
        ));
    } else {
        assert(out@ =~= before_call + hexadecimal(n as nat, 0));
    }
}

/// `n` as sixteen hexadecimal digits.
pub fn hex_text(n: u64) -> (out: String)
    ensures
        out@ == hexadecimal(n as nat, 16),
{
    let mut out = String::new();
    push_hexadecimal(&mut out, n, 16);
    assert(out@ =~= hexadecimal(n as nat, 16));
    out
}

fn hex_digit(c: char) -> (out: Option<u64>)
    ensures
        match out {
            Some(d) => digit_value(c) == Some(d as nat) && d < 16,
            None => digit_value(c) is None,
        },
{
    if '0' <= c && c <= '9' {
        Some((c as u64) - ('0' as u64))
    } else if 'a' <= c && c <= 'f' {
        Some((c as u64) - ('a' as u64) + 10)
    } else if 'A' <= c && c <= 'F' {
        Some((c as u64) - ('A' as u64) + 10)
    } else {
        None
    }
}

proof fn lemma_hex_prefix(s: Seq<char>, i: int)
    requires
        hex_digits(s),
        0 <= i <= s.len(),
    ensures
        hex_number(s.take(i)) <= hex_number(s),
    decreases s.len() - i,
{
    if i < s.len() {
        lemma_hex_prefix(s, i + 1);
        assert(s.take(i + 1).drop_last() =~= s.take(i));
        assert(s.take(i + 1).last() == s[i]);
        assert(digit_value(s[i]) is Some);
    } else {
        assert(s.take(i) =~= s);
    }
}

/// The unsigned 64-bit number that a text writes in hexadecimal, if it writes one.
pub fn parse_hex(v: &Vec<char>) -> (out: Option<u64>)
    ensures
        out == hex_u64(v@),
{
    let from: usize = if v.len() > 0 && v[0] == '+' {
        1
    } else {
        0
    };
    let ghost d = without_plus(v@);
    assert(d =~= v@.skip(from as int));
    if from == v.len() {
        return None;
    }
    let mut n: u64 = 0;
    for i in from..v.len()
        invariant
            from <= i <= v.len(),
            from < v.len(),
            d == without_plus(v@),
            d == v@.skip(from as int),
            n == hex_number(d.take(i - from)),
            forall|j: int| 0 <= j < i - from ==> digit_value(#[trigger] d[j]) is Some,
    {
        let c = v[i];
        assert(d[i - from] == c);
        assert(d.take(i - from + 1).drop_last() =~= d.take(i - from));
        assert(d.take(i - from + 1).last() == c);
        match hex_digit(c) {
            None => {
                return None;
            },
            Some(x) => {
                if n > 0x0fff_ffff_ffff_ffff {
                    proof {
                        if hex_digits(d) {
                            lemma_hex_prefix(d, i - from + 1);
                        }
                    }
                    return None;
                }
                n = n * 16 + x;
            },
        }
    }
    assert(d.take(d.len() as int) =~= d);
    Some(n)
}

/// Whether two texts are equal up to the case of ASCII letters.
pub fn equal_ignoring_case(a: &Vec<char>, b: &Vec<char>) -> (r: bool)
    ensures
        r == same_ignoring_case(a@, b@),
{
    if a.len() != b.len() {
        return false;
    }
    for i in 0..a.len()
        invariant
            a.len() == b.len(),
            forall|j: int| 0 <= j < i ==> ascii_lower(#[trigger] a@[j]) == ascii_lower(b@[j]),
    {
        if to_ascii_lower(a[i]) != to_ascii_lower(b[i]) {
            assert(ascii_lower(a@[i as int]) != ascii_lower(b@[i as int]));
            return false;
        }
    }
    true
}

fn to_ascii_lower(c: char) -> (r: char)
    ensures
        r == ascii_lower(c),
{
    if 'A' <= c && c <= 'Z' {
        ((c as u8) + 32) as char
    } else {
        c
    }
}

/// Whether a text holds nothing but white characters.
pub open spec fn all_white(s: Seq<char>) -> bool {
    forall|i: int| 0 <= i < s.len() ==> white(#[trigger] s[i])
}

/// Whether a text begins and ends with characters that are not white.
pub open spec fn tidy(s: Seq<char>) -> bool {
    s.len() > 0 && !white(s[0]) && !white(s[s.len() - 1])
}

proof fn lemma_leading_white_goes(a: Seq<char>, s: Seq<char>)
    requires
        all_white(a),
    ensures
        trimmed_start(a + s) == trimmed_start(s),
    decreases a.len(),
{
    if a.len() > 0 {
        assert(white(a[0]));
        assert((a + s)[0] == a[0]);
        assert((a + s).skip(1) =~= a.skip(1) + s);
        assert forall|i: int| 0 <= i < a.skip(1).len() implies white(#[trigger] a.skip(1)[i]) by {
            assert(white(a[i + 1]));
        }
        lemma_leading_white_goes(a.skip(1), s);
    } else {
        assert(a + s =~= s);
    }
}

/// White characters at the end of a text do not count for what trimming leaves of
/// its end.
pub proof fn lemma_trailing_white_goes(s: Seq<char>, b: Seq<char>)
    requires
        all_white(b),
    ensures
        trimmed_end(s + b) == trimmed_end(s),
    decreases b.len(),
{
    if b.len() > 0 {
        let d = b.drop_last();
        assert(white(b[b.len() - 1]));
        assert((s + b).last() == b.last());
        assert((s + b).drop_last() =~= s + d);
        assert forall|i: int| 0 <= i < d.len() implies white(#[trigger] d[i]) by {
            assert(white(b[i]));
        }
        lemma_trailing_white_goes(s, d);
    } else {
        assert(s + b =~= s);
    }
}

/// Trimming takes away the white characters round a text and nothing else.
pub proof fn lemma_trimming_takes_the_padding(a: Seq<char>, s: Seq<char>, b: Seq<char>)
    requires
        all_white(a),
        all_white(b),
        s.len() == 0 || tidy(s),
    ensures
        trimmed(a + s + b) == s,
{
    assert(a + s + b =~= a + (s + b));
    lemma_leading_white_goes(a, s + b);
    if s.len() > 0 {
        assert((s + b)[0] == s[0]);
        assert(trimmed_start(s + b) == s + b);
        lemma_trailing_white_goes(s, b);
    } else {
        assert(s + b =~= b + s);
        lemma_leading_white_goes(b, s);
    }
}

/// A text that begins and ends with characters that are not white is trimmed.
pub proof fn lemma_tidy_is_trimmed(s: Seq<char>)
    requires
        s.len() == 0 || tidy(s),
    ensures
        trimmed(s) == s,
{
    lemma_trimming_takes_the_padding(Seq::empty(), s, Seq::empty());
    assert(Seq::<char>::empty() + s + Seq::<char>::empty() =~= s);
}

/// What trimming leaves is empty or begins and ends with characters that are not
/// white, and what it took away was white.
pub proof fn lemma_trimming_leaves_a_tidy_text(s: Seq<char>) -> (r: (Seq<char>, Seq<char>))
    ensures
        trimmed(s).len() == 0 || tidy(trimmed(s)),
        all_white(r.0),
        all_white(r.1),
        s == r.0 + trimmed(s) + r.1,
{
    let a = lemma_start_splits(s);
    let t = trimmed_start(s);
    let b = lemma_end_splits(t);
    assert(s =~= a + trimmed(s) + b);
    if trimmed(s).len() > 0 {
        assert(t[0] == trimmed(s)[0]);
    }
    (a, b)
}

proof fn lemma_start_splits(s: Seq<char>) -> (a: Seq<char>)
    ensures
        all_white(a),
        s == a + trimmed_start(s),
        trimmed_start(s).len() > 0 ==> !white(trimmed_start(s)[0]),
    decreases s.len(),
{
    if s.len() > 0 && white(s[0]) {
        let rest = lemma_start_splits(s.skip(1));
        let a = seq![s[0]] + rest;
        assert(s =~= seq![s[0]] + s.skip(1));
        assert(s =~= a + trimmed_start(s));
        a
    } else {
        assert(s =~= Seq::<char>::empty() + s);
        Seq::empty()
    }
}

proof fn lemma_end_splits(s: Seq<char>) -> (b: Seq<char>)
    ensures
        all_white(b),
        s == trimmed_end(s) + b,
        trimmed_end(s).len() > 0 ==> !white(trimmed_end(s)[trimmed_end(s).len() - 1]),
    decreases s.len(),
{
    if s.len() > 0 && white(s.last()) {
        let rest = lemma_end_splits(s.drop_last());
        let b = rest.push(s.last());
        assert(s =~= s.drop_last().push(s.last()));
        assert(s =~= trimmed_end(s) + b);
        b
    } else {
        assert(s =~= s + Seq::<char>::empty());
        Seq::empty()
    }
}

/// Texts are joined from the first on: the first, the separator, and the rest
/// joined.
pub proof fn lemma_joined_from_the_first(parts: Seq<Seq<char>>, sep: Seq<char>)
    requires
        parts.len() > 1,
    ensures
        joined(parts, sep) == parts[0] + sep + joined(parts.skip(1), sep),
    decreases parts.len(),
{
    let d = parts.drop_last();
    if parts.len() == 2 {
        assert(joined(d, sep) == d[0]);
        assert(joined(parts.skip(1), sep) == parts[1]);
        assert(joined(parts, sep) =~= parts[0] + sep + parts[1]);
    } else {
        lemma_joined_from_the_first(d, sep);
        assert(d.skip(1) =~= parts.skip(1).drop_last());
        assert(parts.skip(1).last() == parts.last());
        assert(joined(parts, sep) =~= parts[0] + sep + (joined(d.skip(1), sep) + sep + parts.last()));
    }
}

/// What was joined with a separator is taken apart at it again: texts without the
/// separator come out as they went in.
pub proof fn lemma_joined_is_taken_apart(parts: Seq<Seq<char>>, sep: char)
    requires
        parts.len() > 0,
        forall|i: int| 0 <= i < parts.len() ==> !(#[trigger] parts[i]).contains(sep),
    ensures
        pieces(joined(parts, seq![sep]), sep) == parts,
    decreases parts.len(),
{
    let s = joined(parts, seq![sep]);
    let first = parts[0];
    if parts.len() == 1 {
        lemma_first_none_contained(s, sep);
        assert(pieces(s, sep) =~= parts);
    } else {
        let rest = parts.skip(1);
        lemma_joined_from_the_first(parts, seq![sep]);
        assert forall|i: int| 0 <= i < rest.len() implies !(#[trigger] rest[i]).contains(sep) by {
            assert(!parts[i + 1].contains(sep));
        }
        lemma_joined_is_taken_apart(rest, sep);
        assert forall|j: int| 0 <= j < first.len() implies s[j] != sep by {
            assert(s[j] == first[j]);
            assert(!parts[0].contains(sep));
        }
        assert(s[first.len() as int] == sep);
        lemma_first_is(s, sep, first.len() as int);
        assert(s.take(first.len() as int) =~= first);
        assert(s.skip(first.len() as int + 1) =~= joined(rest, seq![sep]));
        assert(pieces(s, sep) =~= parts);
    }
}

proof fn lemma_first_none_contained(s: Seq<char>, c: char)
    requires
        !s.contains(c),
    ensures
        s.index_of_first(c) is None,
{
    s.index_of_first_ensures(c);
}

/// The pieces of a text, joined with the separator again, make the text; none of
/// them holds the separator.
pub proof fn lemma_pieces_make_the_text(s: Seq<char>, sep: char)
    ensures
        joined(pieces(s, sep), seq![sep]) == s,
        pieces(s, sep).len() > 0,
        forall|i: int| 0 <= i < pieces(s, sep).len() ==> !(#[trigger] pieces(s, sep)[i]).contains(sep),
    decreases s.len(),
{
    s.index_of_first_ensures(sep);
    if let Some(i) = s.index_of_first(sep) {
        let rest = s.skip(i + 1);
        lemma_pieces_make_the_text(rest, sep);
        let p = pieces(s, sep);
        assert(p.skip(1) =~= pieces(rest, sep));
        lemma_joined_from_the_first(p, seq![sep]);
        assert(joined(p, seq![sep]) =~= s);
        assert forall|k: int| 0 <= k < p.len() implies !(#[trigger] p[k]).contains(sep) by {
            if k > 0 {
                assert(p[k] == pieces(rest, sep)[k - 1]);
            }
        }
    }
}

/// With enough pieces allowed, the first pieces are all of them; otherwise the last
/// holds the rest of the text.
pub proof fn lemma_first_pieces_make_the_text(s: Seq<char>, sep: char, n: nat)
    requires
        n > 0,
    ensures
        joined(first_pieces(s, sep, n), seq![sep]) == s,
        0 < first_pieces(s, sep, n).len() <= n,
        forall|i: int|
            0 <= i < first_pieces(s, sep, n).len() - 1 ==> !(#[trigger] first_pieces(s, sep, n)[i]).contains(
                sep,
            ),
        first_pieces(s, sep, n).len() < n ==> !first_pieces(s, sep, n).last().contains(sep),
    decreases n,
{
    s.index_of_first_ensures(sep);
    if let Some(i) = s.index_of_first(sep) {
        if n > 1 {
            let rest = s.skip(i + 1);
            lemma_first_pieces_make_the_text(rest, sep, (n - 1) as nat);
            let p = first_pieces(s, sep, n);
            let q = first_pieces(rest, sep, (n - 1) as nat);
            assert(p.skip(1) =~= q);
            lemma_joined_from_the_first(p, seq![sep]);
            assert(joined(p, seq![sep]) =~= s);
            assert(p.last() == q.last());
            assert forall|k: int| 0 <= k < p.len() - 1 implies !(#[trigger] p[k]).contains(sep) by {
                if k > 0 {
                    assert(p[k] == q[k - 1]);
                }
            }
        }
    }
}

/// A line ends at its line feed, alone or after a carriage return; the rest of the
/// text is the lines that follow.
pub proof fn lemma_lines_follow_one_another(line: Seq<char>, rest: Seq<char>)
    requires
        !line.contains('\n'),
    ensures
        lines_of(line + seq!['\r', '\n'] + rest) == seq![line] + lines_of(rest),
        line.len() == 0 || line.last() != '\r' ==> lines_of(line + seq!['\n'] + rest) == seq![line]
            + lines_of(rest),
        line.len() > 0 ==> lines_of(line) == seq![line],
        lines_of(Seq::empty()) == Seq::<Seq<char>>::empty(),
{
    let n = line.len() as int;
    let a = line + seq!['\n'] + rest;
    let b = line + seq!['\r', '\n'] + rest;
    assert forall|j: int| 0 <= j < n implies a[j] != '\n' && b[j] != '\n' by {
        assert(a[j] == line[j] && b[j] == line[j]);
    }
    assert(a[n] == '\n');
    assert(b[n] == '\r' && b[n + 1] == '\n');
    lemma_first_is(a, '\n', n);
    lemma_first_is(b, '\n', n + 1);
    assert(a.take(n) =~= line);
    assert(b.take(n + 1) =~= line.push('\r'));
    assert(line.push('\r').drop_last() =~= line);
    assert(a.skip(n + 1) =~= rest);
    assert(b.skip(n + 2) =~= rest);
    lemma_first_none_contained(line, '\n');
}

/// Lines written one after another, each with a line feed, are read one after
/// another.
pub proof fn lemma_lines_read_back(lines: Seq<Seq<char>>)
    requires
        forall|i: int|
            0 <= i < lines.len() ==> !(#[trigger] lines[i]).contains('\n') && (lines[i].len() == 0
                || lines[i].last() != '\r'),
    ensures
        lines_of(written_lines(lines)) == lines,
    decreases lines.len(),
{
    if lines.len() > 0 {
        let rest = lines.skip(1);
        assert forall|i: int| 0 <= i < rest.len() implies !(#[trigger] rest[i]).contains('\n') && (
        rest[i].len() == 0 || rest[i].last() != '\r') by {
            assert(rest[i] == lines[i + 1]);
        }
        lemma_lines_read_back(rest);
        assert(!lines[0].contains('\n'));
        lemma_lines_follow_one_another(lines[0], written_lines(rest));
        assert(seq![lines[0]] + rest =~= lines);
    } else {
        lemma_lines_follow_one_another(Seq::empty(), Seq::empty());
        assert(lines =~= Seq::empty());
    }
}

/// Lines one after another, each with a line feed.
pub open spec fn written_lines(lines: Seq<Seq<char>>) -> Seq<char>
    decreases lines.len(),
{
    if lines.len() == 0 {
        Seq::empty()
    } else {
        lines[0] + seq!['\n'] + written_lines(lines.skip(1))
    }
}

proof fn lemma_words_after_run(run: Seq<char>, w: Seq<char>, s: Seq<char>)
    requires
        forall|i: int| 0 <= i < w.len() ==> !white(#[trigger] w[i]),
    ensures
        words_after(run, w + s) == words_after(run + w, s),
    decreases w.len(),
{
    if w.len() > 0 {
        assert(!white(w[0]));
        assert((w + s)[0] == w[0]);
        assert((w + s).skip(1) =~= w.skip(1) + s);
        assert forall|i: int| 0 <= i < w.skip(1).len() implies !white(#[trigger] w.skip(1)[i]) by {
            assert(!white(w[i + 1]));
        }
        lemma_words_after_run(run.push(w[0]), w.skip(1), s);
        assert(run.push(w[0]) + w.skip(1) =~= run + w);
    } else {
        assert(w + s =~= s);
        assert(run + w =~= run);
    }
}

/// The words of a text are what white characters separate: white characters in
/// front do not count, and a word ends at the first white character.
pub proof fn lemma_words_are_separated_by_white(w: Seq<char>, c: char, s: Seq<char>)
    requires
        forall|i: int| 0 <= i < w.len() ==> !white(#[trigger] w[i]),
        white(c),
    ensures
        words(seq![c] + s) == words(s),
        w.len() > 0 ==> words(w) == seq![w],
        w.len() > 0 ==> words(w + seq![c] + s) == seq![w] + words(s),
        words(Seq::empty()) == Seq::<Seq<char>>::empty(),
{
    assert((seq![c] + s)[0] == c);
    assert((seq![c] + s).skip(1) =~= s);
    assert(words(seq![c] + s) =~= words(s));
    let e = Seq::<char>::empty();
    assert(w + e =~= w);
    assert(e + w =~= w);
    lemma_words_after_run(e, w, e);
    assert(w + seq![c] + s =~= w + (seq![c] + s));
    lemma_words_after_run(e, w, seq![c] + s);
}

/// The order of texts: a text comes before every longer one that begins with it,
/// and otherwise the first characters that differ decide.
pub proof fn lemma_order_of_texts(p: Seq<char>, c: char, x: Seq<char>, d: char, y: Seq<char>)
    ensures
        before(p, p + seq![c] + x),
        !before(p + seq![c] + x, p),
        c < d ==> before(p + seq![c] + x, p + seq![d] + y),
        d < c ==> !before(p + seq![c] + x, p + seq![d] + y),
    decreases p.len(),
{
    let a = p + seq![c] + x;
    let b = p + seq![d] + y;
    if p.len() > 0 {
        let q = p.skip(1);
        lemma_order_of_texts(q, c, x, d, y);
        assert(a[0] == p[0] && b[0] == p[0]);
        assert(a.skip(1) =~= q + seq![c] + x);
        assert(b.skip(1) =~= q + seq![d] + y);
    } else {
        assert(a[0] == c && b[0] == d);
    }
}

/// The value of a decimal digit sequence.
pub open spec fn decimal_number(s: Seq<char>) -> int
    decreases s.len(),
{
    if s.len() == 0 {
        0
    } else {
        decimal_number(s.drop_last()) * 10 + (s.last() as int - '0' as int)
    }
}

/// A number in decimal consists of digits, has no needless zero in front, and is
/// the number that the digits write.
pub proof fn lemma_decimal_reads_back(n: nat)
    ensures
        decimal_number(decimal(n)) == n,
        decimal(n).len() > 0,
        forall|i: int| 0 <= i < decimal(n).len() ==> '0' <= #[trigger] decimal(n)[i] <= '9',
        n > 0 ==> decimal(n)[0] != '0',
    decreases n,
{
    if n < 10 {
        assert(decimal(n).drop_last() =~= Seq::empty());
        assert(decimal_number(Seq::empty()) == 0);
    } else {
        lemma_decimal_reads_back(n / 10);
        assert(decimal(n).drop_last() =~= decimal(n / 10));
        assert forall|i: int| 0 <= i < decimal(n).len() implies '0' <= #[trigger] decimal(n)[i] <= '9' by {
            if i < decimal(n / 10).len() {
                assert(decimal(n)[i] == decimal(n / 10)[i]);
            }
        }
        assert(decimal(n)[0] == decimal(n / 10)[0]);
    }
}

/// A number in hexadecimal has the given width and reads back as the number, where
/// it fits.
pub proof fn lemma_hexadecimal_reads_back(n: nat, width: nat)
    ensures
        hexadecimal(n, width).len() == width,
        forall|i: int|
            0 <= i < width ==> digit_value(#[trigger] hexadecimal(n, width)[i]) is Some,
        n < vstd::arithmetic::power::pow(16, width) ==> hex_number(hexadecimal(n, width)) == n,
    decreases width,
{
    vstd::arithmetic::power::lemma_pow0(16);
    if width > 0 {
        let w = (width - 1) as nat;
        lemma_hexadecimal_reads_back(n / 16, w);
        let s = hexadecimal(n, width);
        assert(s.drop_last() =~= hexadecimal(n / 16, w));
        assert forall|i: int| 0 <= i < width implies digit_value(#[trigger] s[i]) is Some by {
            if i < w {
                assert(s[i] == hexadecimal(n / 16, w)[i]);
            }
        }
        reveal(vstd::arithmetic::power::pow);
        let p = vstd::arithmetic::power::pow(16, w);
        assert(vstd::arithmetic::power::pow(16, width) == 16 * p);
        if n < 16 * p {
            assert(n / 16 < p) by (nonlinear_arith)
                requires
                    n < 16 * p,
            ;
        }
    }
}

/// A number in sixteen hexadecimal digits reads back as that number.
pub proof fn lemma_hash_text_reads_back(n: u64)
    ensures
        hex_u64(hexadecimal(n as nat, 16)) == Some(n),
{
    lemma_hexadecimal_reads_back(n as nat, 16);
    let s = hexadecimal(n as nat, 16);
    assert(vstd::arithmetic::power::pow(16, 16) == 0x1_0000_0000_0000_0000) by {
        reveal(vstd::arithmetic::power::pow);
        reveal_with_fuel(vstd::arithmetic::power::pow, 17);
    }
    assert(digit_value(s[0]) is Some);
    assert(s[0] != '+');
    assert(hex_digits(s));
}

proof fn lemma_joined_of_two(a: Seq<Seq<char>>, b: Seq<Seq<char>>, sep: Seq<char>)
    requires
        a.len() > 0,
        b.len() > 0,
    ensures
        joined(a + b, sep) == joined(a, sep) + sep + joined(b, sep),
    decreases b.len(),
{
    let d = b.drop_last();
    assert((a + b).drop_last() =~= a + d);
    assert((a + b).last() == b.last());
    if d.len() == 0 {
        assert(a + d =~= a);
        assert(joined(b, sep) == b.last());
    } else {
        lemma_joined_of_two(a, d, sep);
        assert(joined(a + b, sep) =~= joined(a, sep) + sep + (joined(d, sep) + sep + b.last()));
    }
}

/// The pieces of two texts with a separator between them are the pieces of the one
/// and then those of the other.
pub proof fn lemma_pieces_of_two_texts(a: Seq<char>, sep: char, b: Seq<char>)
    ensures
        pieces(a + seq![sep] + b, sep) == pieces(a, sep) + pieces(b, sep),
        !b.contains(sep) ==> pieces(b, sep) == seq![b],
{
    lemma_pieces_make_the_text(a, sep);
    lemma_pieces_make_the_text(b, sep);
    let p = pieces(a, sep);
    let q = pieces(b, sep);
    lemma_joined_of_two(p, q, seq![sep]);
    assert forall|i: int| 0 <= i < (p + q).len() implies !(#[trigger] (p + q)[i]).contains(sep) by {
        if i < p.len() {
            assert(!p[i].contains(sep));
        } else {
            assert(!q[i - p.len()].contains(sep));
        }
    }
    lemma_joined_is_taken_apart(p + q, sep);
    b.index_of_first_ensures(sep);
}

proof fn lemma_words_after_two(run: Seq<char>, a: Seq<char>, c: char, b: Seq<char>)
    requires
        white(c),
    ensures
        words_after(run, a + seq![c] + b) == words_after(run, a) + words(b),
    decreases a.len(),
{
    let s = a + seq![c] + b;
    if a.len() == 0 {
        assert(s[0] == c);
        assert(s.skip(1) =~= b);
        assert(words_after(run, s) =~= words_after(run, a) + words(b));
    } else {
        assert(s[0] == a[0]);
        assert(s.skip(1) =~= a.skip(1) + seq![c] + b);
        if white(a[0]) {
            lemma_words_after_two(Seq::empty(), a.skip(1), c, b);
        } else {
            lemma_words_after_two(run.push(a[0]), a.skip(1), c, b);
        }
        assert(words_after(run, s) =~= words_after(run, a) + words(b));
    }
}

/// The words of two texts with a white character between them are the words of the
/// one and then those of the other.
pub proof fn lemma_words_of_two_texts(a: Seq<char>, c: char, b: Seq<char>)
    requires
        white(c),
    ensures
        words(a + seq![c] + b) == words(a) + words(b),
{
    lemma_words_after_two(Seq::empty(), a, c, b);
}

/// The white characters are those with the Unicode property `White_Space`, by their
/// code points.
pub proof fn lemma_white_characters(c: char)
    ensures
        white(c) <==> {
            let n = c as u32;
            ||| 9 <= n <= 13
            ||| n == 32
            ||| n == 133
            ||| n == 160
            ||| n == 5760
            ||| 8192 <= n <= 8202
            ||| n == 8232
            ||| n == 8233
            ||| n == 8239
            ||| n == 8287
            ||| n == 12288
        },
{
}

/// Case is that of the letters from `A` to `Z`: each is the same as the one 32 code
/// points on, and every other character is only the same as itself or as the capital
/// that has it for its small letter.
pub proof fn lemma_case_of_ascii_letters(c: char)
    ensures
        65 <= c as u32 <= 90 ==> ascii_lower(c) as u32 == c as u32 + 32,
        !(65 <= c as u32 <= 90) ==> ascii_lower(c) == c,
{
}

/// Equality up to case is an equality.
pub proof fn lemma_sameness_up_to_case(a: Seq<char>, b: Seq<char>, c: Seq<char>)
    ensures
        same_ignoring_case(a, a),
        same_ignoring_case(a, b) ==> same_ignoring_case(b, a),
        same_ignoring_case(a, b) && same_ignoring_case(b, c) ==> same_ignoring_case(a, c),
{
}

} // verus!

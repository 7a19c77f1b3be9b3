//! Text as a sequence of characters: cutting, searching and writing it.

use vstd::prelude::*;

verus! {

/// `String::push` appends the given character to the end of the string.
pub assume_specification[ String::push ](s: &mut String, c: char)
    ensures
        final(s)@ == old(s)@.push(c),
;

/// The contents of a list of strings.
pub open spec fn texts(v: Seq<String>) -> Seq<Seq<char>> {
    v.map_values(|s: String| s@)
}

/// Whether a character is white space, by Unicode's `White_Space` property.
pub open spec fn is_white(c: char) -> bool {
    let n = c as u32;
    ||| 0x9 <= n <= 0xd
    ||| n == 0x20
    ||| n == 0x85
    ||| n == 0xa0
    ||| n == 0x1680
    ||| 0x2000 <= n <= 0x200a
    ||| n == 0x2028
    ||| n == 0x2029
    ||| n == 0x202f
    ||| n == 0x205f
    ||| n == 0x3000
}

/// Whether a character is an ASCII decimal digit.
pub open spec fn is_digit(c: char) -> bool {
    '0' <= c <= '9'
}

/// A text without the white space it starts with.
pub open spec fn trimmed_start(s: Seq<char>) -> Seq<char>
    decreases s.len(),
{
    if s.len() > 0 && is_white(s[0]) {
        trimmed_start(s.skip(1))
    } else {
        s
    }
}

/// A text without the white space it ends with.
pub open spec fn trimmed_end(s: Seq<char>) -> Seq<char>
    decreases s.len(),
{
    if s.len() > 0 && is_white(s.last()) {
        trimmed_end(s.drop_last())
    } else {
        s
    }
}

/// A text without the white space around it.
pub open spec fn trimmed(s: Seq<char>) -> Seq<char> {
    trimmed_end(trimmed_start(s))
}

/// The pieces of a text between the occurrences of a separator.
///
/// A text without the separator is one piece, so there is always one more
/// piece than there are separators.
pub open spec fn pieces(s: Seq<char>, sep: char) -> Seq<Seq<char>>
    decreases s.len(),
{
    if s.len() == 0 {
        seq![Seq::<char>::empty()]
    } else {
        let before = pieces(s.drop_last(), sep);
        if s.last() == sep {
            before.push(Seq::empty())
        } else {
            before.drop_last().push(before.last().push(s.last()))
        }
    }
}

/// Whether `needle` occurs in `s` at index `at`.
pub open spec fn occurs_at(s: Seq<char>, needle: Seq<char>, at: int) -> bool {
    &&& 0 <= at
    &&& at + needle.len() <= s.len()
    &&& s.subrange(at, at + needle.len()) == needle
}

/// Whether `needle` occurs anywhere in `s`.
pub open spec fn holds(s: Seq<char>, needle: Seq<char>) -> bool {
    exists|at: int| occurs_at(s, needle, at)
}

/// Where `needle` first occurs in `s`.
pub open spec fn first_at(s: Seq<char>, needle: Seq<char>) -> int {
    choose|at: int|
        occurs_at(s, needle, at) && forall|k: int| 0 <= k < at ==> !occurs_at(s, needle, k)
}

/// The first occurrence is the only one with none before it.
pub proof fn first_at_is(s: Seq<char>, needle: Seq<char>, at: int)
    requires
        occurs_at(s, needle, at),
        forall|k: int| 0 <= k < at ==> !occurs_at(s, needle, k),
    ensures
        first_at(s, needle) == at,
        holds(s, needle),
{
    let other = first_at(s, needle);
    assert(occurs_at(s, needle, other) && forall|k: int|
        0 <= k < other ==> !occurs_at(s, needle, k));
    if other < at {
        assert(!occurs_at(s, needle, other));
    }
    if at < other {
        assert(!occurs_at(s, needle, at));
    }
}

/// Whether `a` comes before `b`, character by character.
pub open spec fn comes_before(a: Seq<char>, b: Seq<char>) -> bool
    decreases a.len(),
{
    if b.len() == 0 {
        false
    } else if a.len() == 0 {
        true
    } else if a[0] != b[0] {
        a[0] < b[0]
    } else {
        comes_before(a.skip(1), b.skip(1))
    }
}

/// The digit a number below ten is written with.
pub open spec fn digit(n: nat) -> char {
    (n + 0x30) as char
}

/// A number written in base ten.
pub open spec fn decimal(n: nat) -> Seq<char>
    decreases n,
{
    if n < 10 {
        seq![digit(n)]
    } else {
        decimal(n / 10).push(digit(n % 10))
    }
}

/// The texts of a list joined by a separator.
pub open spec fn joined(parts: Seq<Seq<char>>, sep: Seq<char>) -> Seq<char>
    decreases parts.len(),
{
    if parts.len() == 0 {
        Seq::empty()
    } else if parts.len() == 1 {
        parts[0]
    } else {
        joined(parts.drop_last(), sep) + sep + parts.last()
    }
}

/// `n` spaces.
pub open spec fn spaces(n: nat) -> Seq<char> {
    Seq::new(n, |i: int| ' ')
}

/// A text followed by the spaces that bring it to a width.
pub open spec fn padded(s: Seq<char>, width: nat) -> Seq<char> {
    if s.len() >= width {
        s
    } else {
        s + spaces((width - s.len()) as nat)
    }
}

/// The characters of a text, as a list that can be indexed.
pub fn chars_of(s: &str) -> (v: Vec<char>)
    ensures
        v@ == s@,
{
    let mut v: Vec<char> = Vec::new();
    for c in it: s.chars()
        invariant
            it.seq() == s@,
            v@ == s@.take(it.index() as int),
    {
        v.push(c);
        assert(v@ =~= s@.take(it.index() + 1));
    }
    assert(v@ =~= s@);
    v
}

/// The text between two indices of a list of characters.
pub fn text_of(v: &[char], from: usize, to: usize) -> (s: String)
    requires
        from <= to <= v@.len(),
    ensures
        s@ == v@.subrange(from as int, to as int),
{
    let mut s = String::new();
    let mut i: usize = from;
    while i < to
        invariant
            from <= i <= to <= v@.len(),
            s@ == v@.subrange(from as int, i as int),
        decreases to - i,
    {
        s.push(v[i]);
        i += 1;
        assert(s@ =~= v@.subrange(from as int, i as int));
    }
    s
}

/// Whether two texts are the same.
pub fn same(a: &str, b: &str) -> (r: bool)
    ensures
        r == (a@ == b@),
{
    a.to_owned() == b.to_owned()
}

/// Whether a character is white space.
pub fn white(c: char) -> (r: bool)
    ensures
        r == is_white(c),
{
    let n = c as u32;
    (0x9 <= n && n <= 0xd) || n == 0x20 || n == 0x85 || n == 0xa0 || n == 0x1680 || (0x2000 <= n
        && n <= 0x200a) || n == 0x2028 || n == 0x2029 || n == 0x202f || n == 0x205f || n == 0x3000
}

proof fn trimmed_start_skips(s: Seq<char>, i: int)
    requires
        0 <= i <= s.len(),
        forall|k: int| 0 <= k < i ==> is_white(s[k]),
    ensures
        trimmed_start(s) == trimmed_start(s.skip(i)),
    decreases i,
{
    if i > 0 {
        assert forall|k: int| 0 <= k < i - 1 implies is_white(s.skip(1)[k]) by {
            assert(s.skip(1)[k] == s[k + 1]);
        }
        trimmed_start_skips(s.skip(1), i - 1);
        assert(s.skip(1).skip(i - 1) =~= s.skip(i));
    } else {
        assert(s.skip(0) =~= s);
    }
}

proof fn trimmed_end_drops(s: Seq<char>, j: int)
    requires
        0 <= j <= s.len(),
        forall|k: int| j <= k < s.len() ==> is_white(s[k]),
    ensures
        trimmed_end(s) == trimmed_end(s.take(j)),
    decreases s.len() - j,
{
    if j < s.len() {
        trimmed_end_drops(s.drop_last(), j);
        assert(s.drop_last().take(j) =~= s.take(j));
    } else {
        assert(s.take(j) =~= s);
    }
}

/// A text without the white space around it.
pub fn trim(s: &str) -> (r: String)
    ensures
        r@ == trimmed(s@),
{
    let v = chars_of(s);
    let mut i: usize = 0;
    while i < v.len() && white(v[i])
        invariant
            i <= v@.len(),
            forall|k: int| 0 <= k < i ==> is_white(v@[k]),
        decreases v.len() - i,
    {
        i += 1;
    }
    proof {
        trimmed_start_skips(s@, i as int);
        assert(i < v@.len() ==> s@.skip(i as int)[0] == v@[i as int]);
    }
    let ghost rest = s@.skip(i as int);
    let mut j: usize = v.len();
    while j > i && white(v[j - 1])
        invariant
            i <= j <= v@.len(),
            v@ == s@,
            forall|k: int| j <= k < v@.len() ==> is_white(v@[k]),
        decreases j,
    {
        j -= 1;
    }
    proof {
        assert forall|k: int| j - i <= k < rest.len() implies is_white(rest[k]) by {
            assert(rest[k] == v@[k + i]);
        }
        trimmed_end_drops(rest, j - i);
        assert(rest.take(j - i) =~= v@.subrange(i as int, j as int));
        assert(j > i ==> rest.take(j - i).last() == v@[j - 1]);
    }
    text_of(v.as_slice(), i, j)
}

/// The pieces of a text between the occurrences of a separator.
pub fn split(s: &str, sep: char) -> (r: Vec<String>)
    ensures
        texts(r@) == pieces(s@, sep),
        r@.len() > 0,
{
    let v = chars_of(s);
    let mut done: Vec<String> = Vec::new();
    let mut open = String::new();
    let mut i: usize = 0;
    assert(texts(done@).push(open@) =~= pieces(v@.take(0), sep));
    while i < v.len()
        invariant
            i <= v@.len(),
            texts(done@).push(open@) == pieces(v@.take(i as int), sep),
        decreases v.len() - i,
    {
        let ghost before = texts(done@).push(open@);
        assert(v@.take(i + 1).drop_last() =~= v@.take(i as int));
        if v[i] == sep {
            done.push(open);
            open = String::new();
            assert(texts(done@) =~= before);
        } else {
            open.push(v[i]);
            assert(texts(done@) =~= before.drop_last());
        }
        i += 1;
    }
    assert(v@.take(i as int) =~= s@);
    let ghost last = open@;
    let ghost first = texts(done@);
    done.push(open);
    assert(texts(done@) =~= first.push(last));
    done
}

/// Where `needle` first occurs in a text, if it does.
pub fn find(s: &str, needle: &str) -> (r: Option<usize>)
    ensures
        match r {
            Some(at) => occurs_at(s@, needle@, at as int) && forall|k: int|
                0 <= k < at ==> !occurs_at(s@, needle@, k),
            None => !holds(s@, needle@),
        },
{
    let v = chars_of(s);
    let n = chars_of(needle);
    if n.len() > v.len() {
        return None;
    }
    let mut at: usize = 0;
    let last: usize = v.len() - n.len();
    loop
        invariant
            v@ == s@,
            n@ == needle@,
            at <= last,
            last + n@.len() == v@.len() <= usize::MAX,
            forall|k: int| 0 <= k < at ==> !occurs_at(s@, needle@, k),
        decreases last - at,
    {
        let mut i: usize = 0;
        while i < n.len() && v[at + i] == n[i]
            invariant
                i <= n@.len(),
                at <= last,
                last + n@.len() == v@.len() <= usize::MAX,
                forall|k: int| 0 <= k < i ==> v@[at + k] == n@[k],
            decreases n.len() - i,
        {
            i += 1;
        }
        if i == n.len() {
            assert(v@.subrange(at as int, at + n@.len()) =~= n@);
            return Some(at);
        }
        proof {
            assert(v@[at + i] != n@[i as int]);
            if occurs_at(s@, needle@, at as int) {
                assert(s@.subrange(at as int, at + n@.len())[i as int] == v@[at + i]);
            }
        }
        if at == last {
            assert forall|k: int| !occurs_at(s@, needle@, k) by {}
            return None;
        }
        at += 1;
    }
}

/// Whether `needle` occurs in a text.
pub fn contains(s: &str, needle: &str) -> (r: bool)
    ensures
        r == holds(s@, needle@),
{
    find(s, needle).is_some()
}

/// Whether a text starts with another.
pub fn starts_with(s: &str, prefix: &str) -> (r: bool)
    ensures
        r == occurs_at(s@, prefix@, 0),
{
    let v = chars_of(s);
    let n = chars_of(prefix);
    if n.len() > v.len() {
        return false;
    }
    let mut i: usize = 0;
    while i < n.len() && v[i] == n[i]
        invariant
            i <= n@.len() <= v@.len(),
            forall|k: int| 0 <= k < i ==> v@[k] == n@[k],
        decreases n.len() - i,
    {
        i += 1;
    }
    proof {
        if i == n.len() {
            assert(v@.subrange(0, n@.len() as int) =~= n@);
        } else if occurs_at(s@, prefix@, 0) {
            assert(s@.subrange(0, n@.len() as int)[i as int] == v@[i as int]);
        }
    }
    i == n.len()
}

proof fn comes_before_skips(a: Seq<char>, b: Seq<char>, i: int)
    requires
        0 <= i <= a.len(),
        i <= b.len(),
        forall|k: int| 0 <= k < i ==> a[k] == b[k],
    ensures
        comes_before(a, b) == comes_before(a.skip(i), b.skip(i)),
    decreases i,
{
    if i > 0 {
        assert forall|k: int| 0 <= k < i - 1 implies a.skip(1)[k] == b.skip(1)[k] by {
            assert(a[k + 1] == b[k + 1]);
        }
        comes_before_skips(a.skip(1), b.skip(1), i - 1);
        assert(a.skip(1).skip(i - 1) =~= a.skip(i));
        assert(b.skip(1).skip(i - 1) =~= b.skip(i));
    } else {
        assert(a.skip(0) =~= a);
        assert(b.skip(0) =~= b);
    }
}

/// Whether one text comes before another, character by character.
pub fn before(a: &str, b: &str) -> (r: bool)
    ensures
        r == comes_before(a@, b@),
{
    let x = chars_of(a);
    let y = chars_of(b);
    let mut i: usize = 0;
    while i < x.len() && i < y.len() && x[i] == y[i]
        invariant
            i <= x@.len(),
            i <= y@.len(),
            forall|k: int| 0 <= k < i ==> x@[k] == y@[k],
        decreases x.len() - i,
    {
        i += 1;
    }
    proof {
        comes_before_skips(a@, b@, i as int);
        assert(i < x@.len() ==> a@.skip(i as int)[0] == x@[i as int]);
        assert(i < y@.len() ==> b@.skip(i as int)[0] == y@[i as int]);
    }
    if i == y.len() {
        false
    } else if i == x.len() {
        true
    } else {
        x[i] < y[i]
    }
}

/// The order of texts is total: two texts that differ are ordered.
pub proof fn texts_are_ordered(a: Seq<char>, b: Seq<char>)
    ensures
        comes_before(a, b) || comes_before(b, a) || a == b,
        !(comes_before(a, b) && comes_before(b, a)),
        !comes_before(a, a),
    decreases a.len(),
{
    if a.len() > 0 {
        texts_are_ordered(a.skip(1), a.skip(1));
    }
    if a.len() > 0 && b.len() > 0 {
        texts_are_ordered(a.skip(1), b.skip(1));
        if a[0] == b[0] && a.skip(1) == b.skip(1) {
            assert(a =~= b) by {
                assert forall|i: int| 0 <= i < a.len() implies a[i] == b[i] by {
                    if i > 0 {
                        assert(a.skip(1)[i - 1] == b.skip(1)[i - 1]);
                    }
                }
            }
        }
    } else if a.len() == 0 && b.len() == 0 {
        assert(a =~= b);
    }
}

/// The order of texts is transitive.
pub proof fn text_order_is_transitive(a: Seq<char>, b: Seq<char>, c: Seq<char>)
    requires
        comes_before(a, b),
        comes_before(b, c),
    ensures
        comes_before(a, c),
    decreases a.len(),
{
    if a.len() > 0 && b.len() > 0 && c.len() > 0 && a[0] == b[0] && b[0] == c[0] {
        text_order_is_transitive(a.skip(1), b.skip(1), c.skip(1));
    }
}

/// Numbers that differ are written differently.
pub proof fn decimals_differ(m: nat, n: nat)
    requires
        m != n,
    ensures
        decimal(m) != decimal(n),
    decreases m,
{
    decimal_is_positive(m);
    decimal_is_positive(n);
    if m >= 10 && n >= 10 {
        if m / 10 != n / 10 {
            decimals_differ(m / 10, n / 10);
            assert(decimal(m).drop_last() =~= decimal(m / 10));
            assert(decimal(n).drop_last() =~= decimal(n / 10));
        } else {
            assert(m % 10 != n % 10);
            assert(decimal(m).last() == digit(m % 10));
            assert(decimal(n).last() == digit(n % 10));
        }
    } else if m < 10 && n < 10 {
        assert(decimal(m)[0] == digit(m));
        assert(decimal(n)[0] == digit(n));
    } else if m < 10 {
        decimal_is_positive(n / 10);
        assert(decimal(n).len() == decimal(n / 10).len() + 1);
    } else {
        decimal_is_positive(m / 10);
        assert(decimal(m).len() == decimal(m / 10).len() + 1);
    }
}

/// A number is written with at least one digit.
proof fn decimal_is_positive(n: nat)
    ensures
        decimal(n).len() > 0,
    decreases n,
{
    if n >= 10 {
        decimal_is_positive(n / 10);
    }
}

/// A number written in base ten.
pub fn number(n: u64) -> (s: String)
    ensures
        s@ == decimal(n as nat),
    decreases n,
{
    if n < 10 {
        let mut s = String::new();
        s.push((0x30u8 + (n as u8)) as char);
        assert(s@ =~= decimal(n as nat));
        s
    } else {
        let mut s = number(n / 10);
        s.push((0x30u8 + ((n % 10) as u8)) as char);
        s
    }
}

/// A number of up to 128 bits, written in base ten.
pub fn count(n: u128) -> (s: String)
    ensures
        s@ == decimal(n as nat),
    decreases n,
{
    if n < 10 {
        let mut s = String::new();
        s.push((0x30u8 + (n as u8)) as char);
        assert(s@ =~= decimal(n as nat));
        s
    } else {
        let mut s = count(n / 10);
        s.push((0x30u8 + ((n % 10) as u8)) as char);
        s
    }
}

/// Appends the spaces that bring a text to a width.
pub fn append_padded(out: &mut String, s: &str, width: usize)
    ensures
        final(out)@ == old(out)@ + padded(s@, width as nat),
{
    let ghost start = out@;
    out.append(s);
    let len: usize = s.unicode_len();
    let mut i: usize = len;
    while i < width
        invariant
            len == s@.len(),
            len <= i,
            i <= width || i == len,
            out@ == start + (s@ + spaces((i - len) as nat)),
        decreases width - i,
    {
        out.push(' ');
        i += 1;
        assert(out@ =~= start + (s@ + spaces((i - len) as nat)));
    }
    assert(start + (s@ + spaces(0)) =~= start + s@);
}

/// Whether a text ends with another.
pub open spec fn closes(s: Seq<char>, suffix: Seq<char>) -> bool {
    occurs_at(s, suffix, s.len() - suffix.len())
}

/// Whether a text ends with another.
pub fn ends_with(s: &str, suffix: &str) -> (r: bool)
    ensures
        r == closes(s@, suffix@),
{
    let v = chars_of(s);
    let n = chars_of(suffix);
    if n.len() > v.len() {
        return false;
    }
    let from: usize = v.len() - n.len();
    let mut i: usize = 0;
    while i < n.len() && v[from + i] == n[i]
        invariant
            i <= n@.len(),
            from + n@.len() == v@.len() <= usize::MAX,
            forall|k: int| 0 <= k < i ==> v@[from + k] == n@[k],
        decreases n.len() - i,
    {
        i += 1;
    }
    proof {
        if i == n.len() {
            assert(v@.subrange(from as int, v@.len() as int) =~= n@);
        } else if closes(s@, suffix@) {
            assert(s@.subrange(from as int, v@.len() as int)[i as int] == v@[from + i]);
        }
    }
    i == n.len()
}

/// What stands before and after the first occurrence of a text, if it
/// occurs.
pub open spec fn parted(s: Seq<char>, needle: Seq<char>) -> Option<(Seq<char>, Seq<char>)> {
    if holds(s, needle) {
        let at = first_at(s, needle);
        Some((s.take(at), s.skip(at + needle.len())))
    } else {
        None
    }
}

/// What stands before and after the first occurrence of a text, if it
/// occurs.
pub fn split_once(s: &str, needle: &str) -> (r: Option<(String, String)>)
    ensures
        match r {
            Some(p) => parted(s@, needle@) == Some((p.0@, p.1@)),
            None => parted(s@, needle@) is None,
        },
{
    match find(s, needle) {
        Some(at) => {
            proof {
                first_at_is(s@, needle@, at as int);
            }
            let n: usize = needle.unicode_len();
            let len: usize = s.unicode_len();
            Some((s.substring_char(0, at).to_owned(), s.substring_char(at + n, len).to_owned()))
        },
        None => None,
    }
}

/// How many characters a text starts with before the first that is white.
pub open spec fn word_end(s: Seq<char>) -> nat
    decreases s.len(),
{
    if s.len() == 0 || is_white(s[0]) {
        0
    } else {
        1 + word_end(s.skip(1))
    }
}

/// The first word of a text, which is empty if it has none.
pub open spec fn first_word(s: Seq<char>) -> Seq<char> {
    let rest = trimmed_start(s);
    rest.take(word_end(rest) as int)
}

/// How many characters a text ends with after the last that is white.
pub open spec fn word_start(s: Seq<char>) -> nat
    decreases s.len(),
{
    if s.len() == 0 || is_white(s.last()) {
        0
    } else {
        1 + word_start(s.drop_last())
    }
}

/// The last word of a text, which is empty if it has none.
pub open spec fn last_word(s: Seq<char>) -> Seq<char> {
    let rest = trimmed_end(s);
    rest.skip(rest.len() - word_start(rest))
}

proof fn word_end_at(s: Seq<char>, i: int, j: int)
    requires
        0 <= i <= j <= s.len(),
        forall|k: int| i <= k < j ==> !is_white(s[k]),
        j < s.len() ==> is_white(s[j]),
    ensures
        word_end(s.skip(i)) == j - i,
    decreases j - i,
{
    if i < j {
        assert(s.skip(i).skip(1) =~= s.skip(i + 1));
        assert(s.skip(i)[0] == s[i]);
        word_end_at(s, i + 1, j);
    } else if i < s.len() {
        assert(s.skip(i)[0] == s[i]);
    }
}

proof fn word_start_at(s: Seq<char>, i: int, j: int)
    requires
        0 <= i <= j <= s.len(),
        forall|k: int| i <= k < j ==> !is_white(s[k]),
        i > 0 ==> is_white(s[i - 1]),
    ensures
        word_start(s.take(j)) == j - i,
    decreases j - i,
{
    if i < j {
        assert(s.take(j).drop_last() =~= s.take(j - 1));
        assert(s.take(j).last() == s[j - 1]);
        word_start_at(s, i, j - 1);
    } else if i > 0 {
        assert(s.take(j).last() == s[i - 1]);
    }
}

/// The first word of a text, which is empty if it has none.
pub fn leading_word(s: &str) -> (r: String)
    ensures
        r@ == first_word(s@),
{
    let v = chars_of(s);
    let mut i: usize = 0;
    while i < v.len() && white(v[i])
        invariant
            i <= v@.len(),
            forall|k: int| 0 <= k < i ==> is_white(v@[k]),
        decreases v.len() - i,
    {
        i += 1;
    }
    let mut j: usize = i;
    while j < v.len() && !white(v[j])
        invariant
            i <= j <= v@.len(),
            forall|k: int| i <= k < j ==> !is_white(v@[k]),
        decreases v.len() - j,
    {
        j += 1;
    }
    proof {
        trimmed_start_skips(s@, i as int);
        assert(i < v@.len() ==> s@.skip(i as int)[0] == v@[i as int]);
        word_end_at(s@, i as int, j as int);
        assert(s@.skip(i as int).take(j - i) =~= s@.subrange(i as int, j as int));
    }
    text_of(v.as_slice(), i, j)
}

/// What follows the first word of a text.
pub open spec fn past_word(s: Seq<char>) -> Seq<char> {
    let rest = trimmed_start(s);
    rest.skip(word_end(rest) as int)
}

/// What follows the first word of a text.
pub fn after_word(s: &str) -> (r: String)
    ensures
        r@ == past_word(s@),
{
    let v = chars_of(s);
    let mut i: usize = 0;
    while i < v.len() && white(v[i])
        invariant
            i <= v@.len(),
            forall|k: int| 0 <= k < i ==> is_white(v@[k]),
        decreases v.len() - i,
    {
        i += 1;
    }
    let mut j: usize = i;
    while j < v.len() && !white(v[j])
        invariant
            i <= j <= v@.len(),
            forall|k: int| i <= k < j ==> !is_white(v@[k]),
        decreases v.len() - j,
    {
        j += 1;
    }
    proof {
        trimmed_start_skips(s@, i as int);
        assert(i < v@.len() ==> s@.skip(i as int)[0] == v@[i as int]);
        word_end_at(s@, i as int, j as int);
        assert(s@.skip(i as int).skip(j - i) =~= s@.subrange(j as int, s@.len() as int));
    }
    text_of(v.as_slice(), j, v.len())
}

/// The last word of a text, which is empty if it has none.
pub fn trailing_word(s: &str) -> (r: String)
    ensures
        r@ == last_word(s@),
{
    let v = chars_of(s);
    let mut j: usize = v.len();
    while j > 0 && white(v[j - 1])
        invariant
            j <= v@.len(),
            forall|k: int| j <= k < v@.len() ==> is_white(v@[k]),
        decreases j,
    {
        j -= 1;
    }
    let mut i: usize = j;
    while i > 0 && !white(v[i - 1])
        invariant
            i <= j <= v@.len(),
            forall|k: int| i <= k < j ==> !is_white(v@[k]),
        decreases i,
    {
        i -= 1;
    }
    proof {
        trimmed_end_drops(s@, j as int);
        assert(j > 0 ==> s@.take(j as int).last() == v@[j - 1]);
        word_start_at(s@, i as int, j as int);
        assert(s@.take(j as int).skip(i as int) =~= s@.subrange(i as int, j as int));
    }
    text_of(v.as_slice(), i, j)
}

/// A line without the carriage return that stands before its line feed.
pub open spec fn chomped(line: Seq<char>) -> Seq<char> {
    if line.len() > 0 && line.last() == '\r' {
        line.drop_last()
    } else {
        line
    }
}

/// The first `n` pieces of a text that are lines, each ended by a line feed.
pub open spec fn ended_lines(cut: Seq<Seq<char>>, n: nat) -> Seq<Seq<char>>
    decreases n,
{
    if n == 0 {
        Seq::empty()
    } else {
        ended_lines(cut, (n - 1) as nat).push(chomped(cut[n - 1]))
    }
}

/// The lines of a text. What follows the last line feed is a line too, unless
/// it is empty.
pub open spec fn lines_of(s: Seq<char>) -> Seq<Seq<char>> {
    let cut = pieces(s, '\n');
    let ended = ended_lines(cut, (cut.len() - 1) as nat);
    if cut.last().len() == 0 {
        ended
    } else {
        ended.push(cut.last())
    }
}

/// The lines of a text.
pub fn lines(s: &str) -> (r: Vec<String>)
    ensures
        texts(r@) == lines_of(s@),
{
    let cut = split(s, '\n');
    let ghost all = pieces(s@, '\n');
    let last: usize = cut.len() - 1;
    let mut out: Vec<String> = Vec::new();
    let mut i: usize = 0;
    assert(texts(out@) =~= ended_lines(all, 0));
    while i < last
        invariant
            i <= last,
            last + 1 == cut@.len(),
            all == texts(cut@),
            texts(out@) == ended_lines(all, i as nat),
        decreases last - i,
    {
        let v = chars_of(cut[i].as_str());
        assert(all[i as int] == cut@[i as int]@);
        let mut to: usize = v.len();
        if to > 0 && v[to - 1] == '\r' {
            to -= 1;
        }
        let ghost was = out@;
        let line = text_of(v.as_slice(), 0, to);
        assert(line@ =~= chomped(all[i as int]));
        out.push(line);
        assert(texts(out@) =~= texts(was).push(line@));
        i += 1;
    }
    assert(all.last() == cut@[last as int]@);
    if !cut[last].as_str().is_empty() {
        let ghost was = out@;
        let line = cut[last].clone();
        out.push(line);
        assert(texts(out@) =~= texts(was).push(all.last()));
    }
    out
}

proof fn joined_step(parts: Seq<Seq<char>>, sep: Seq<char>, n: int)
    requires
        0 < n < parts.len(),
    ensures
        joined(parts.take(n + 1), sep) == joined(parts.take(n), sep) + sep + parts[n],
{
    assert(parts.take(n + 1).drop_last() =~= parts.take(n));
    assert(parts.take(n + 1).last() == parts[n]);
}

/// The texts of a list joined by a separator.
pub fn join(parts: &Vec<String>, sep: &str) -> (r: String)
    ensures
        r@ == joined(texts(parts@), sep@),
{
    let ghost all = texts(parts@);
    if parts.len() == 0 {
        let r = String::new();
        assert(r@ =~= joined(all, sep@));
        return r;
    }
    let mut out = parts[0].clone();
    assert(all.take(1).len() == 1 && all.take(1)[0] == parts@[0]@);
    let mut i: usize = 1;
    while i < parts.len()
        invariant
            1 <= i <= parts@.len(),
            all == texts(parts@),
            out@ == joined(all.take(i as int), sep@),
        decreases parts.len() - i,
    {
        proof {
            joined_step(all, sep@, i as int);
            assert(all[i as int] == parts@[i as int]@);
        }
        out.append(sep);
        out.append(parts[i].as_str());
        i += 1;
    }
    assert(all.take(i as int) =~= all);
    out
}

/// Where a character last occurs in a text, if it does.
pub open spec fn last_index(s: Seq<char>, c: char) -> Option<int>
    decreases s.len(),
{
    if s.len() == 0 {
        None
    } else if s.last() == c {
        Some(s.len() - 1)
    } else {
        last_index(s.drop_last(), c)
    }
}

/// Where a character last occurs before an index of a text, if it does.
pub fn rfind(v: &Vec<char>, c: char, to: usize) -> (r: Option<usize>)
    requires
        to <= v@.len(),
    ensures
        match r {
            Some(at) => last_index(v@.take(to as int), c) == Some(at as int) && at < to,
            None => last_index(v@.take(to as int), c) is None,
        },
{
    let mut i: usize = to;
    while i > 0
        invariant
            i <= to <= v@.len(),
            last_index(v@.take(to as int), c) == last_index(v@.take(i as int), c),
        decreases i,
    {
        assert(v@.take(i as int).last() == v@[i - 1]);
        assert(v@.take(i as int).drop_last() =~= v@.take(i - 1));
        if v[i - 1] == c {
            return Some(i - 1);
        }
        i -= 1;
    }
    None
}

/// A text with every occurrence of a needle, from the front, put aside for
/// another text.
pub open spec fn replaced(s: Seq<char>, needle: Seq<char>, with: Seq<char>) -> Seq<char>
    decreases s.len(),
{
    if needle.len() == 0 || s.len() < needle.len() {
        s
    } else if occurs_at(s, needle, 0) {
        with + replaced(s.skip(needle.len() as int), needle, with)
    } else {
        seq![s[0]] + replaced(s.skip(1), needle, with)
    }
}

/// A text with every occurrence of a needle, from the front, left out.
pub fn without(s: &str, needle: &str) -> (r: String)
    ensures
        r@ == replaced(s@, needle@, Seq::empty()),
{
    let v = chars_of(s);
    let w = chars_of(needle);
    let n = w.len();
    if n == 0 {
        return s.to_owned();
    }
    let mut out: Vec<char> = Vec::new();
    let mut i: usize = 0;
    assert(v@.skip(0) =~= s@);
    while v.len() - i >= n
        invariant
            v@ == s@,
            w@ == needle@,
            n == w@.len(),
            n > 0,
            i <= v@.len(),
            out@ + replaced(s@.skip(i as int), needle@, Seq::empty()) == replaced(
                s@,
                needle@,
                Seq::empty(),
            ),
        decreases v@.len() - i,
    {
        let mut k: usize = 0;
        let end = v.len();
        while k < n && v[i + k] == w[k]
            invariant
                k <= n,
                n == w@.len(),
                end == v@.len(),
                i + n <= end,
                forall|j: int| 0 <= j < k ==> v@[i + j] == w@[j],
            decreases n - k,
        {
            k += 1;
        }
        let ghost rest = s@.skip(i as int);
        proof {
            if k == n {
                assert(rest.subrange(0, n as int) =~= w@);
                assert(rest.skip(n as int) =~= s@.skip(i + n));
            } else {
                assert(rest.subrange(0, n as int)[k as int] != w@[k as int]);
                assert(rest.skip(1) =~= s@.skip(i + 1));
            }
        }
        if k == n {
            assert(Seq::<char>::empty() + replaced(s@.skip(i + n), needle@, Seq::empty())
                =~= replaced(s@.skip(i + n), needle@, Seq::empty()));
            i += n;
        } else {
            assert(out@ + (seq![rest[0]] + replaced(s@.skip(i + 1), needle@, Seq::empty()))
                =~= out@.push(rest[0]) + replaced(s@.skip(i + 1), needle@, Seq::empty()));
            out.push(v[i]);
            i += 1;
        }
    }
    let ghost rest = s@.skip(i as int);
    let ghost kept = out@;
    while i < v.len()
        invariant
            v@ == s@,
            i <= v@.len(),
            out@ + s@.skip(i as int) == kept + rest,
        decreases v@.len() - i,
    {
        assert(out@.push(s@[i as int]) + s@.skip(i + 1) =~= out@ + s@.skip(i as int));
        out.push(v[i]);
        i += 1;
    }
    assert(out@ + s@.skip(i as int) =~= out@);
    let r = text_of(out.as_slice(), 0, out.len());
    assert(out@.subrange(0, out@.len() as int) =~= out@);
    r
}

/// The digit of a number below sixteen.
pub open spec fn hex_digit(n: nat) -> char {
    if n < 10 {
        ('0' as nat + n) as char
    } else {
        ('a' as nat + n - 10) as char
    }
}

/// The last digits of a number written in base sixteen.
pub open spec fn hexadecimal(n: nat, digits: nat) -> Seq<char>
    decreases digits,
{
    if digits == 0 {
        Seq::empty()
    } else {
        hexadecimal(n / 16, (digits - 1) as nat).push(hex_digit(n % 16))
    }
}

fn hex_digits(n: u64, digits: usize) -> (r: Vec<char>)
    ensures
        r@ == hexadecimal(n as nat, digits as nat),
    decreases digits,
{
    if digits == 0 {
        Vec::new()
    } else {
        let mut r = hex_digits(n / 16, digits - 1);
        let last = (n % 16) as u8;
        let c = if last < 10 {
            (48u8 + last) as char
        } else {
            (97u8 + (last - 10)) as char
        };
        r.push(c);
        r
    }
}

/// The last sixteen digits of a number written in base sixteen.
pub fn hex(n: u64) -> (r: String)
    ensures
        r@ == hexadecimal(n as nat, 16),
{
    let v = hex_digits(n, 16);
    assert(v@.subrange(0, v@.len() as int) =~= v@);
    text_of(v.as_slice(), 0, v.len())
}

/// What a text starts with before the first of a character.
pub open spec fn head(s: Seq<char>, c: char) -> Seq<char>
    decreases s.len(),
{
    if s.len() == 0 || s[0] == c {
        Seq::empty()
    } else {
        seq![s[0]] + head(s.skip(1), c)
    }
}

/// What a text starts with before the first of a character, which is all of
/// it if the character does not occur.
pub fn head_of(s: &str, c: char) -> (r: String)
    ensures
        r@ == head(s@, c),
{
    let v = chars_of(s);
    let mut i: usize = 0;
    assert(s@.skip(0) =~= s@);
    assert(s@.take(0) + head(s@, c) =~= head(s@, c));
    while i < v.len() && v[i] != c
        invariant
            i <= v@.len(),
            v@ == s@,
            head(s@, c) == s@.take(i as int) + head(s@.skip(i as int), c),
        decreases v@.len() - i,
    {
        proof {
            let rest = s@.skip(i as int);
            assert(rest.skip(1) =~= s@.skip(i + 1));
            assert(s@.take(i as int) + (seq![rest[0]] + head(s@.skip(i + 1), c)) =~= s@.take(i + 1)
                + head(s@.skip(i + 1), c));
        }
        i += 1;
    }
    proof {
        assert(head(s@.skip(i as int), c) =~= Seq::empty());
        assert(s@.subrange(0, i as int) =~= head(s@, c));
    }
    text_of(v.as_slice(), 0, i)
}

/// A character with an ASCII capital made small.
pub open spec fn lowered(c: char) -> char {
    if 'A' <= c && c <= 'Z' {
        (c as u32 + 32) as char
    } else {
        c
    }
}

/// A text with its ASCII capitals made small.
pub fn lower(s: &str) -> (r: String)
    ensures
        r@ == s@.map_values(|c: char| lowered(c)),
{
    let v = chars_of(s);
    let mut out = String::new();
    let mut i: usize = 0;
    while i < v.len()
        invariant
            i <= v@.len(),
            v@ == s@,
            out@ == s@.take(i as int).map_values(|c: char| lowered(c)),
        decreases v@.len() - i,
    {
        let c = v[i];
        let small = if 'A' <= c && c <= 'Z' {
            ((c as u8) + 32) as char
        } else {
            c
        };
        out.push(small);
        i += 1;
        assert(out@ =~= s@.take(i as int).map_values(|c: char| lowered(c)));
    }
    assert(s@.take(i as int) =~= s@);
    out
}

} // verus!

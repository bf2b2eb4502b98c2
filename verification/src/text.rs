//! Text as a sequence of characters: the small vocabulary every other module
//! states its output in.

use vstd::prelude::*;

verus! {

/// `String::push`: the string afterwards is the string before with `ch` at
/// its end.
pub assume_specification[ String::push ](s: &mut String, ch: char)
    ensures
        final(s)@ == old(s)@.push(ch),
;

// ── whole texts ──────────────────────────────────────────────────────

/// The characters of `text`, in order.
pub fn chars_of(text: &str) -> (chars: Vec<char>)
    ensures
        chars@ == text@,
{
    let mut chars: Vec<char> = Vec::new();
    for c in it: text.chars()
        invariant
            chars@ == it.seq().take(it.index()),
            it.seq() == text@,
    {
        chars.push(c);
    }
    chars
}

/// The string made of `chars`, in order.
pub fn string_of(chars: &[char]) -> (text: String)
    ensures
        text@ == chars@,
{
    slice_of(chars, 0, chars.len())
}

/// The string made of the characters from `from` up to, but not including,
/// `to`.
pub fn slice_of(chars: &[char], from: usize, to: usize) -> (text: String)
    requires
        from <= to <= chars@.len(),
    ensures
        text@ == chars@.subrange(from as int, to as int),
{
    let mut text = String::new();
    let mut i: usize = from;
    while i < to
        invariant
            from <= i <= to <= chars@.len(),
            text@ == chars@.subrange(from as int, i as int),
        decreases to - i,
    {
        text.push(chars[i]);
        i += 1;
    }
    text
}

/// Whether two texts hold the same characters.
pub fn same_text(a: &str, b: &str) -> (same: bool)
    ensures
        same == (a@ == b@),
{
    a.to_string() == b.to_string()
}

/// What each string of `strings` holds.
pub open spec fn texts(strings: Seq<String>) -> Seq<Seq<char>> {
    strings.map_values(|s: String| s@)
}

/// Whether `strings` holds `text`.
pub fn contains_text(strings: &[String], text: &str) -> (found: bool)
    ensures
        found == texts(strings@).contains(text@),
{
    let ghost all = texts(strings@);
    let mut i: usize = 0;
    while i < strings.len()
        invariant
            i <= strings@.len(),
            all == texts(strings@),
            forall|j: int| 0 <= j < i ==> all[j] != text@,
        decreases strings@.len() - i,
    {
        if same_text(strings[i].as_str(), text) {
            assert(all[i as int] == text@);
            return true;
        }
        assert(all[i as int] != text@);
        i += 1;
    }
    false
}

/// A copy of a list of strings.
pub fn copy_strings(strings: &Vec<String>) -> (copy: Vec<String>)
    ensures
        copy@ == strings@,
{
    let mut copy: Vec<String> = Vec::new();
    let mut i: usize = 0;
    while i < strings.len()
        invariant
            i <= strings@.len(),
            copy@ == strings@.take(i as int),
        decreases strings@.len() - i,
    {
        copy.push(strings[i].clone());
        i += 1;
    }
    assert(strings@.take(i as int) =~= strings@);
    copy
}

/// A copy of an optional list of strings.
pub fn copy_optional_strings(strings: &Option<Vec<String>>) -> (copy: Option<Vec<String>>)
    ensures
        copy is Some <==> strings is Some,
        copy matches Some(list) ==> list@ == strings->Some_0@,
{
    match strings {
        Some(list) => Some(copy_strings(list)),
        None => None,
    }
}

/// A copy of an optional string.
pub fn copy_optional_string(text: &Option<String>) -> (copy: Option<String>)
    ensures
        copy == *text,
{
    match text {
        Some(text) => Some(text.clone()),
        None => None,
    }
}

/// What an optional string holds.
pub open spec fn optional_text(text: Option<String>) -> Option<Seq<char>> {
    match text {
        Some(text) => Some(text@),
        None => None,
    }
}

// ── joining ──────────────────────────────────────────────────────────

/// The parts in order, with `separator` between neighbours.
pub open spec fn join(parts: Seq<Seq<char>>, separator: Seq<char>) -> Seq<char>
    decreases parts.len(),
{
    if parts.len() == 0 {
        seq![]
    } else if parts.len() == 1 {
        parts[0]
    } else {
        join(parts.drop_last(), separator) + separator + parts.last()
    }
}

/// Join strings with a separator between neighbours.
pub fn join_strings(parts: &[String], separator: &str) -> (joined: String)
    ensures
        joined@ == join(texts(parts@), separator@),
{
    let ghost all = texts(parts@);
    let mut joined = String::new();
    let mut i: usize = 0;
    while i < parts.len()
        invariant
            i <= parts@.len(),
            all == texts(parts@),
            joined@ == join(all.take(i as int), separator@),
        decreases parts@.len() - i,
    {
        assert(all.take(i + 1).drop_last() =~= all.take(i as int));
        if i > 0 {
            joined.append(separator);
        }
        joined.append(parts[i].as_str());
        i += 1;
    }
    assert(all.take(i as int) =~= all);
    joined
}

/// The parts in order, with nothing between them.
pub open spec fn concat(parts: Seq<Seq<char>>) -> Seq<char>
    decreases parts.len(),
{
    if parts.len() == 0 {
        seq![]
    } else {
        concat(parts.drop_last()) + parts.last()
    }
}

// ── numbers ──────────────────────────────────────────────────────────

/// The decimal digit for a number below ten.
pub open spec fn digit(n: nat) -> char {
    (('0' as int) + n) as char
}

/// A number written in decimal, without leading zeros.
pub open spec fn decimal(n: nat) -> Seq<char>
    decreases n,
{
    if n < 10 {
        seq![digit(n)]
    } else {
        decimal(n / 10).push(digit(n % 10))
    }
}

/// Write a number in decimal.
pub fn decimal_string(n: u128) -> (text: String)
    ensures
        text@ == decimal(n as nat),
    decreases n,
{
    if n < 10 {
        let mut text = String::new();
        text.push((0x30 + n as u8) as char);
        text
    } else {
        let mut text = decimal_string(n / 10);
        text.push((0x30 + (n % 10) as u8) as char);
        text
    }
}

/// Different numbers are written differently, and every character is a digit.
pub proof fn lemma_decimal(a: nat, b: nat)
    ensures
        decimal(a).len() > 0,
        forall|i: int| 0 <= i < decimal(a).len() ==> is_digit(#[trigger] decimal(a)[i]),
        decimal(a) == decimal(b) ==> a == b,
    decreases a + b,
{
    if a >= 10 && b >= 10 {
        lemma_decimal(a / 10, b / 10);
        assert(decimal(a).drop_last() =~= decimal(a / 10));
        assert(decimal(b).drop_last() =~= decimal(b / 10));
        assert(decimal(a).last() == digit(a % 10));
        assert(decimal(b).last() == digit(b % 10));
    } else if a >= 10 {
        lemma_decimal(a / 10, b);
        assert(decimal(a).len() > 1);
    } else if b >= 10 {
        lemma_decimal(b / 10, a);
        assert(decimal(b).len() > 1);
    } else {
        assert(decimal(a)[0] == digit(a));
        assert(decimal(b)[0] == digit(b));
    }
}

// ── character classes ────────────────────────────────────────────────

/// `a` to `z`.
pub open spec fn is_lowercase(c: char) -> bool {
    'a' <= c <= 'z'
}

/// `A` to `Z`.
pub open spec fn is_uppercase(c: char) -> bool {
    'A' <= c <= 'Z'
}

/// `0` to `9`.
pub open spec fn is_digit(c: char) -> bool {
    '0' <= c <= '9'
}

/// An ASCII letter of either case.
pub open spec fn is_letter(c: char) -> bool {
    is_lowercase(c) || is_uppercase(c)
}

/// An ASCII letter or digit.
pub open spec fn is_alphanumeric(c: char) -> bool {
    is_letter(c) || is_digit(c)
}

/// Whether `c` is an ASCII letter or digit.
pub fn alphanumeric(c: char) -> (yes: bool)
    ensures
        yes == is_alphanumeric(c),
{
    letter(c) || ('0' <= c && c <= '9')
}

/// Whether `c` is an ASCII letter.
pub fn letter(c: char) -> (yes: bool)
    ensures
        yes == is_letter(c),
{
    ('a' <= c && c <= 'z') || ('A' <= c && c <= 'Z')
}

/// The characters with the Unicode `White_Space` property.
pub open spec fn is_space(c: char) -> bool {
    ||| 0x09 <= c as u32 <= 0x0d
    ||| c as u32 == 0x20
    ||| c as u32 == 0x85
    ||| c as u32 == 0xa0
    ||| c as u32 == 0x1680
    ||| 0x2000 <= c as u32 <= 0x200a
    ||| c as u32 == 0x2028
    ||| c as u32 == 0x2029
    ||| c as u32 == 0x202f
    ||| c as u32 == 0x205f
    ||| c as u32 == 0x3000
}

/// Whether `c` has the Unicode `White_Space` property.
pub fn space(c: char) -> (yes: bool)
    ensures
        yes == is_space(c),
{
    let code: u32 = c as u32;
    (0x09 <= code && code <= 0x0d) || code == 0x20 || code == 0x85 || code == 0xa0 || code == 0x1680
        || (0x2000 <= code && code <= 0x200a) || code == 0x2028 || code == 0x2029 || code == 0x202f
        || code == 0x205f || code == 0x3000
}

// ── white space ──────────────────────────────────────────────────────

/// `s` without its leading white space.
pub open spec fn trim_start(s: Seq<char>) -> Seq<char>
    decreases s.len(),
{
    if s.len() > 0 && is_space(s[0]) {
        trim_start(s.drop_first())
    } else {
        s
    }
}

/// `s` without its trailing white space.
pub open spec fn trim_end(s: Seq<char>) -> Seq<char>
    decreases s.len(),
{
    if s.len() > 0 && is_space(s.last()) {
        trim_end(s.drop_last())
    } else {
        s
    }
}

/// `s` without the white space at either end.
pub open spec fn trim(s: Seq<char>) -> Seq<char> {
    trim_end(trim_start(s))
}

/// Copy `chars[from..to]` without the white space at either end.
pub fn trimmed(chars: &[char], from: usize, to: usize) -> (text: String)
    requires
        from <= to <= chars@.len(),
    ensures
        text@ == trim(chars@.subrange(from as int, to as int)),
{
    let ghost whole = chars@.subrange(from as int, to as int);
    let mut start: usize = from;
    while start < to && space(chars[start])
        invariant
            from <= start <= to <= chars@.len(),
            trim_start(whole) == trim_start(chars@.subrange(start as int, to as int)),
        decreases to - start,
    {
        assert(chars@.subrange(start as int, to as int).drop_first() =~= chars@.subrange(
            start + 1,
            to as int,
        ));
        start += 1;
    }
    let ghost middle = chars@.subrange(start as int, to as int);
    let mut end: usize = to;
    while start < end && space(chars[end - 1])
        invariant
            start <= end <= to <= chars@.len(),
            trim_end(middle) == trim_end(chars@.subrange(start as int, end as int)),
        decreases end - start,
    {
        assert(chars@.subrange(start as int, end as int).drop_last() =~= chars@.subrange(
            start as int,
            end - 1,
        ));
        end -= 1;
    }
    slice_of(chars, start, end)
}

/// How many characters of `s` come before its first white space.
pub open spec fn word_len(s: Seq<char>) -> nat
    decreases s.len(),
{
    if s.len() == 0 || is_space(s[0]) {
        0
    } else {
        1 + word_len(s.drop_first())
    }
}

/// The maximal runs of `s` that hold no white space, in order.
pub open spec fn words(s: Seq<char>) -> Seq<Seq<char>>
    decreases s.len(),
{
    if s.len() == 0 {
        seq![]
    } else if is_space(s[0]) {
        words(s.drop_first())
    } else {
        proof {
            lemma_word_len(s);
        }
        seq![s.take(word_len(s) as int)] + words(s.skip(word_len(s) as int))
    }
}

/// A word is never longer than the text it starts.
pub proof fn lemma_word_len(s: Seq<char>)
    ensures
        word_len(s) <= s.len(),
        s.len() > 0 && !is_space(s[0]) ==> word_len(s) > 0,
        word_len(s) < s.len() ==> is_space(s[word_len(s) as int]),
        forall|i: int| 0 <= i < word_len(s) ==> !is_space(#[trigger] s[i]),
    decreases s.len(),
{
    if s.len() > 0 && !is_space(s[0]) {
        lemma_word_len(s.drop_first());
        assert forall|i: int| 0 <= i < word_len(s) implies !is_space(#[trigger] s[i]) by {
            if i > 0 {
                assert(s[i] == s.drop_first()[i - 1]);
            }
        }
    }
}

/// The words of `chars`, split at white space.
pub fn split_words(chars: &[char]) -> (parts: Vec<String>)
    ensures
        texts(parts@) == words(chars@),
{
    let mut parts: Vec<String> = Vec::new();
    let mut i: usize = 0;
    assert(chars@.skip(0) =~= chars@);
    assert(texts(parts@) + words(chars@) =~= words(chars@));
    while i < chars.len()
        invariant
            i <= chars@.len(),
            texts(parts@) + words(chars@.skip(i as int)) == words(chars@),
        decreases chars@.len() - i,
    {
        let ghost rest = chars@.skip(i as int);
        if space(chars[i]) {
            assert(rest.drop_first() =~= chars@.skip(i + 1));
            i += 1;
        } else {
            let from: usize = i;
            while i < chars.len() && !space(chars[i])
                invariant
                    from <= i <= chars@.len(),
                    rest == chars@.skip(from as int),
                    word_len(rest) == (i - from) + word_len(chars@.skip(i as int)),
                decreases chars@.len() - i,
            {
                assert(chars@.skip(i as int).drop_first() =~= chars@.skip(i + 1));
                i += 1;
            }
            proof {
                lemma_word_len(rest);
            }
            let ghost before = texts(parts@);
            parts.push(slice_of(chars, from, i));
            assert(rest.take(i - from) =~= chars@.subrange(from as int, i as int));
            assert(rest.skip(i - from) =~= chars@.skip(i as int));
            assert(texts(parts@) =~= before.push(rest.take(i - from)));
            assert(texts(parts@) + words(chars@.skip(i as int)) =~= before + words(rest));
        }
    }
    assert(words(chars@.skip(i as int)) =~= seq![]);
    assert(texts(parts@) =~= words(chars@));
    parts
}

// ── lines ────────────────────────────────────────────────────────────

/// How many characters of `s` come before its first occurrence of `c`.
pub open spec fn length_before(s: Seq<char>, c: char) -> nat
    decreases s.len(),
{
    if s.len() == 0 || s[0] == c {
        0
    } else {
        1 + length_before(s.drop_first(), c)
    }
}

/// What [`length_before`] counts: a run free of `c`, ended by `c` or by the
/// end of the text.
pub proof fn lemma_length_before(s: Seq<char>, c: char)
    ensures
        length_before(s, c) <= s.len(),
        length_before(s, c) < s.len() ==> s[length_before(s, c) as int] == c,
        forall|i: int| 0 <= i < length_before(s, c) ==> #[trigger] s[i] != c,
    decreases s.len(),
{
    if s.len() > 0 && s[0] != c {
        lemma_length_before(s.drop_first(), c);
        assert forall|i: int| 0 <= i < length_before(s, c) implies #[trigger] s[i] != c by {
            if i > 0 {
                assert(s[i] == s.drop_first()[i - 1]);
            }
        }
    }
}

/// The position of the first `c` at or after `from`, or the length.
pub fn position_of(chars: &[char], from: usize, c: char) -> (at: usize)
    requires
        from <= chars@.len(),
    ensures
        from <= at <= chars@.len(),
        at - from == length_before(chars@.skip(from as int), c),
{
    let mut at: usize = from;
    while at < chars.len() && chars[at] != c
        invariant
            from <= at <= chars@.len(),
            length_before(chars@.skip(from as int), c) == (at - from) + length_before(
                chars@.skip(at as int),
                c,
            ),
        decreases chars@.len() - at,
    {
        assert(chars@.skip(at as int).drop_first() =~= chars@.skip(at + 1));
        at += 1;
    }
    at
}

/// The first line of a text, without the white space at either end.
pub open spec fn first_line_of(s: Seq<char>) -> Seq<char> {
    trim(s.take(length_before(s, '\n') as int))
}

/// The first line of `text`, without the white space at either end.
pub fn first_line(text: &str) -> (line: String)
    ensures
        line@ == first_line_of(text@),
{
    let chars = chars_of(text);
    let end = position_of(chars.as_slice(), 0, '\n');
    assert(chars@.skip(0) =~= chars@);
    assert(chars@.subrange(0, end as int) =~= chars@.take(end as int));
    trimmed(chars.as_slice(), 0, end)
}

// ── pieces ───────────────────────────────────────────────────────────

/// Whether `part` stands in `s` at position `at`.
pub open spec fn stands_at(s: Seq<char>, part: Seq<char>, at: int) -> bool {
    0 <= at && at + part.len() <= s.len() && s.subrange(at, at + part.len()) == part
}

/// Whether `part` stands anywhere in `s`.
pub open spec fn has_piece(s: Seq<char>, part: Seq<char>) -> bool {
    exists|at: int| stands_at(s, part, at)
}

/// What stands in the middle part of a text stands in the text.
pub proof fn lemma_piece_within(
    whole: Seq<char>,
    head: Seq<char>,
    middle: Seq<char>,
    tail: Seq<char>,
    part: Seq<char>,
)
    requires
        whole == head + middle + tail,
        has_piece(middle, part),
    ensures
        has_piece(whole, part),
{
    let at = choose|at: int| stands_at(middle, part, at);
    let to = head.len() + at;
    assert(whole.subrange(to, to + part.len()) =~= middle.subrange(at, at + part.len()));
    assert(stands_at(whole, part, to));
}

/// A text stands in itself.
pub proof fn lemma_piece_of_itself(part: Seq<char>)
    ensures
        has_piece(part, part),
{
    assert(part.subrange(0, part.len() as int) =~= part);
    assert(stands_at(part, part, 0));
}

/// Each part stands in what they are joined into.
pub proof fn lemma_part_in_join(parts: Seq<Seq<char>>, separator: Seq<char>, i: int)
    requires
        0 <= i < parts.len(),
    ensures
        has_piece(join(parts, separator), parts[i]),
    decreases parts.len(),
{
    let whole = join(parts, separator);
    if parts.len() == 1 {
        lemma_piece_of_itself(parts[0]);
    } else {
        let earlier = join(parts.drop_last(), separator);
        if i == parts.len() - 1 {
            lemma_piece_of_itself(parts[i]);
            assert(whole =~= (earlier + separator) + parts[i] + seq![]);
            lemma_piece_within(whole, earlier + separator, parts[i], seq![], parts[i]);
        } else {
            lemma_part_in_join(parts.drop_last(), separator, i);
            assert(whole =~= seq![] + earlier + (separator + parts.last()));
            lemma_piece_within(whole, seq![], earlier, separator + parts.last(), parts[i]);
        }
    }
}

// ── order ────────────────────────────────────────────────────────────

/// Dictionary order on texts, by code point.
pub open spec fn before(a: Seq<char>, b: Seq<char>) -> bool
    decreases a.len(),
{
    if b.len() == 0 {
        false
    } else if a.len() == 0 {
        true
    } else if a[0] == b[0] {
        before(a.drop_first(), b.drop_first())
    } else {
        a[0] < b[0]
    }
}

/// Whether `a` comes before `b` in dictionary order.
pub fn text_before(a: &str, b: &str) -> (yes: bool)
    ensures
        yes == before(a@, b@),
{
    let left = chars_of(a);
    let right = chars_of(b);
    let mut i: usize = 0;
    assert(left@.skip(0) =~= left@);
    assert(right@.skip(0) =~= right@);
    while i < left.len() && i < right.len() && left[i] == right[i]
        invariant
            i <= left@.len(),
            i <= right@.len(),
            left@ == a@,
            right@ == b@,
            before(a@, b@) == before(left@.skip(i as int), right@.skip(i as int)),
        decreases left@.len() - i,
    {
        assert(left@.skip(i as int).drop_first() =~= left@.skip(i + 1));
        assert(right@.skip(i as int).drop_first() =~= right@.skip(i + 1));
        i += 1;
    }
    if i == right.len() {
        false
    } else if i == left.len() {
        true
    } else {
        left[i] < right[i]
    }
}

/// Of two different texts exactly one comes first; no text comes before
/// itself.
pub proof fn lemma_before_total(a: Seq<char>, b: Seq<char>)
    ensures
        a == b ==> !before(a, b),
        a != b ==> (before(a, b) <==> !before(b, a)),
    decreases a.len(),
{
    if a.len() > 0 && b.len() > 0 && a[0] == b[0] {
        lemma_before_total(a.drop_first(), b.drop_first());
        assert(a =~= seq![a[0]] + a.drop_first());
        assert(b =~= seq![b[0]] + b.drop_first());
    } else if a.len() == 0 && b.len() == 0 {
        assert(a =~= b);
    }
}

/// Dictionary order is transitive.
pub proof fn lemma_before_transitive(a: Seq<char>, b: Seq<char>, c: Seq<char>)
    requires
        before(a, b),
        before(b, c),
    ensures
        before(a, c),
    decreases a.len(),
{
    if a.len() > 0 && a[0] == b[0] && b[0] == c[0] {
        lemma_before_transitive(a.drop_first(), b.drop_first(), c.drop_first());
    }
}

/// What stands in a strict order stands in it in one way only: two lists of the
/// same things are the same list.
pub proof fn lemma_order_is_unique<A>(a: Seq<A>, b: Seq<A>, precedes: spec_fn(A, A) -> bool)
    requires
        forall|x: A, y: A| #[trigger] precedes(x, y) ==> !precedes(y, x),
        forall|i: int, j: int|
            0 <= i < j < a.len() ==> precedes(#[trigger] a[i], #[trigger] a[j]),
        forall|i: int, j: int|
            0 <= i < j < b.len() ==> precedes(#[trigger] b[i], #[trigger] b[j]),
        forall|x: A| #[trigger] a.contains(x) <==> b.contains(x),
    ensures
        a == b,
    decreases a.len(),
{
    if a.len() == 0 {
        if b.len() > 0 {
            assert(b.contains(b[0]));
            assert(a.contains(b[0]));
        }
        assert(a =~= b);
    } else {
        assert(a.contains(a[0]));
        let j = choose|j: int| 0 <= j < b.len() && b[j] == a[0];
        assert(b.contains(b[0]));
        assert(a.contains(b[0]));
        let k = choose|k: int| 0 <= k < a.len() && a[k] == b[0];
        if j > 0 && k > 0 {
            assert(precedes(a[0], a[k]));
            assert(precedes(b[0], b[j]));
        }
        assert(a[0] == b[0]);
        let c = a.drop_first();
        let d = b.drop_first();
        assert forall|x: A| #[trigger] c.contains(x) <==> d.contains(x) by {
            if c.contains(x) {
                let at = choose|at: int| 0 <= at < c.len() && c[at] == x;
                assert(a[at + 1] == x);
                assert(precedes(a[0], a[at + 1]));
                assert(a.contains(x));
                let to = choose|to: int| 0 <= to < b.len() && b[to] == x;
                assert(d[to - 1] == x);
            }
            if d.contains(x) {
                let at = choose|at: int| 0 <= at < d.len() && d[at] == x;
                assert(b[at + 1] == x);
                assert(precedes(b[0], b[at + 1]));
                assert(b.contains(x));
                assert(a.contains(x));
                let to = choose|to: int| 0 <= to < a.len() && a[to] == x;
                assert(c[to - 1] == x);
            }
        }
        assert forall|p: int, q: int| 0 <= p < q < c.len() implies precedes(
            #[trigger] c[p],
            #[trigger] c[q],
        ) by {
            assert(precedes(a[p + 1], a[q + 1]));
        }
        assert forall|p: int, q: int| 0 <= p < q < d.len() implies precedes(
            #[trigger] d[p],
            #[trigger] d[q],
        ) by {
            assert(precedes(b[p + 1], b[q + 1]));
        }
        lemma_order_is_unique(c, d, precedes);
        assert(a =~= seq![a[0]] + c);
        assert(b =~= seq![b[0]] + d);
    }
}

// ── laws ─────────────────────────────────────────────────────────────

/// Joining reads as the parts in order with the separator between each two:
/// two runs of parts are joined by joining each and putting the separator
/// between them.
pub proof fn joining_keeps_every_part_in_order(
    a: Seq<Seq<char>>,
    b: Seq<Seq<char>>,
    part: Seq<char>,
    separator: Seq<char>,
)
    ensures
        join(seq![], separator).len() == 0,
        join(seq![part], separator) == part,
        a.len() > 0 && b.len() > 0 ==> join(a + b, separator) == join(a, separator) + separator
            + join(b, separator),
    decreases b.len(),
{
    if a.len() > 0 && b.len() > 0 {
        let whole = a + b;
        assert(whole.drop_last() =~= a + b.drop_last());
        if b.len() == 1 {
            assert(whole.drop_last() =~= a);
        } else {
            joining_keeps_every_part_in_order(a, b.drop_last(), part, separator);
        }
        assert(join(whole, separator) =~= join(a, separator) + separator + join(b, separator));
    }
}

/// Concatenating leaves nothing out and adds nothing: two runs of parts are
/// concatenated by concatenating each.
pub proof fn concatenating_keeps_every_part_in_order(
    a: Seq<Seq<char>>,
    b: Seq<Seq<char>>,
    part: Seq<char>,
)
    ensures
        concat(seq![]).len() == 0,
        concat(seq![part]) == part,
        concat(a + b) == concat(a) + concat(b),
    decreases b.len(),
{
    reveal_with_fuel(concat, 2);
    assert(seq![part].drop_last() =~= seq![]);
    assert(concat(seq![part]) =~= part);
    if b.len() > 0 {
        assert((a + b).drop_last() =~= a + b.drop_last());
        concatenating_keeps_every_part_in_order(a, b.drop_last(), part);
        assert(concat(a + b) =~= concat(a) + concat(b));
    } else {
        assert(a + b =~= a);
        assert(concat(a + b) =~= concat(a) + concat(b));
    }
}

/// Numbers are written in base ten: a digit stands for itself, and a further
/// digit behind a number makes ten times it and that digit.
pub proof fn numbers_are_written_in_base_ten(n: nat, d: nat)
    requires
        d < 10,
    ensures
        decimal(d) == seq![(0x30 + d) as char],
        n > 0 ==> decimal(10 * n + d) == decimal(n).push((0x30 + d) as char),
{
    if n > 0 {
        let m: nat = 10 * n + d;
        assert(m / 10 == n && m % 10 == d);
    }
}

/// Which characters are letters, digits and white space.
pub proof fn characters_are_told_by_their_code(c: char)
    ensures
        is_digit(c) <==> 0x30 <= c as u32 <= 0x39,
        is_uppercase(c) <==> 0x41 <= c as u32 <= 0x5a,
        is_lowercase(c) <==> 0x61 <= c as u32 <= 0x7a,
        is_letter(c) <==> 0x41 <= c as u32 <= 0x5a || 0x61 <= c as u32 <= 0x7a,
        is_alphanumeric(c) <==> is_letter(c) || is_digit(c),
        (c as u32) < 0x80 ==> (is_space(c) <==> c == ' ' || c == '\t' || c == '\n' || c as u32
            == 0x0b || c as u32 == 0x0c || c == '\r'),
        c as u32 >= 0x80 ==> (is_space(c) <==> seq![
            0x85u32,
            0xa0,
            0x1680,
            0x2000,
            0x2001,
            0x2002,
            0x2003,
            0x2004,
            0x2005,
            0x2006,
            0x2007,
            0x2008,
            0x2009,
            0x200a,
            0x2028,
            0x2029,
            0x202f,
            0x205f,
            0x3000,
        ].contains(c as u32)),
{
    let wide = seq![
        0x85u32,
        0xa0,
        0x1680,
        0x2000,
        0x2001,
        0x2002,
        0x2003,
        0x2004,
        0x2005,
        0x2006,
        0x2007,
        0x2008,
        0x2009,
        0x200a,
        0x2028,
        0x2029,
        0x202f,
        0x205f,
        0x3000,
    ];
    assert(wide[0] == 0x85 && wide[1] == 0xa0 && wide[2] == 0x1680 && wide[3] == 0x2000 && wide[4]
        == 0x2001 && wide[5] == 0x2002 && wide[6] == 0x2003 && wide[7] == 0x2004 && wide[8]
        == 0x2005 && wide[9] == 0x2006 && wide[10] == 0x2007 && wide[11] == 0x2008 && wide[12]
        == 0x2009 && wide[13] == 0x200a && wide[14] == 0x2028 && wide[15] == 0x2029 && wide[16]
        == 0x202f && wide[17] == 0x205f && wide[18] == 0x3000);
}

/// Trimming takes white space off both ends and nothing else.
pub proof fn trimming_takes_only_the_white_space_around(s: Seq<char>) -> (edges: (int, int))
    ensures
        0 <= edges.0 <= edges.1 <= s.len(),
        trim(s) == s.subrange(edges.0, edges.1),
        forall|i: int| 0 <= i < edges.0 ==> is_space(#[trigger] s[i]),
        forall|i: int| edges.1 <= i < s.len() ==> is_space(#[trigger] s[i]),
        edges.0 < edges.1 ==> !is_space(s[edges.0]) && !is_space(s[edges.1 - 1]),
{
    let from = lemma_trim_start(s);
    let rest = trim_start(s);
    let to = lemma_trim_end(rest);
    let edges = (from, from + to);
    assert(rest =~= s.skip(from));
    assert(trim(s) =~= s.subrange(edges.0, edges.1));
    assert forall|i: int| edges.1 <= i < s.len() implies is_space(#[trigger] s[i]) by {
        assert(s[i] == rest[i - from]);
    }
    edges
}

proof fn lemma_trim_start(s: Seq<char>) -> (from: int)
    ensures
        0 <= from <= s.len(),
        trim_start(s) == s.skip(from),
        forall|i: int| 0 <= i < from ==> is_space(#[trigger] s[i]),
        from < s.len() ==> !is_space(s[from]),
    decreases s.len(),
{
    if s.len() > 0 && is_space(s[0]) {
        let rest = s.drop_first();
        let from = lemma_trim_start(rest);
        assert(rest.skip(from) =~= s.skip(from + 1));
        assert forall|i: int| 0 <= i < from + 1 implies is_space(#[trigger] s[i]) by {
            if i > 0 {
                assert(s[i] == rest[i - 1]);
            }
        }
        from + 1
    } else {
        assert(s.skip(0) =~= s);
        0
    }
}

proof fn lemma_trim_end(s: Seq<char>) -> (to: int)
    ensures
        0 <= to <= s.len(),
        trim_end(s) == s.take(to),
        forall|i: int| to <= i < s.len() ==> is_space(#[trigger] s[i]),
        to > 0 ==> !is_space(s[to - 1]),
    decreases s.len(),
{
    if s.len() > 0 && is_space(s.last()) {
        let rest = s.drop_last();
        let to = lemma_trim_end(rest);
        assert(rest.take(to) =~= s.take(to));
        assert forall|i: int| to <= i < s.len() implies is_space(#[trigger] s[i]) by {
            if i < rest.len() {
                assert(s[i] == rest[i]);
            }
        }
        to
    } else {
        assert(s.take(s.len() as int) =~= s);
        s.len() as int
    }
}

/// Words are what white space leaves standing: a text without any is one word,
/// and the words around a white space are those before it and those behind it.
pub proof fn words_are_split_at_white_space(a: Seq<char>, gap: char, b: Seq<char>)
    requires
        is_space(gap),
    ensures
        words(seq![]).len() == 0,
        a.len() > 0 && (forall|i: int| 0 <= i < a.len() ==> !is_space(#[trigger] a[i])) ==> words(a)
            == seq![a],
        words(a + seq![gap] + b) == words(a) + words(b),
    decreases a.len(),
{
    let whole = a + seq![gap] + b;
    if a.len() > 0 && (forall|i: int| 0 <= i < a.len() ==> !is_space(#[trigger] a[i])) {
        lemma_word_len(a);
        assert(word_len(a) == a.len());
        assert(a.take(a.len() as int) =~= a);
        assert(a.skip(a.len() as int) =~= seq![]);
        reveal_with_fuel(words, 2);
        assert(words(a) =~= seq![a]);
    }
    if a.len() == 0 {
        assert(whole.drop_first() =~= b);
        assert(words(whole) =~= words(a) + words(b));
    } else if is_space(a[0]) {
        let rest = a.drop_first();
        words_are_split_at_white_space(rest, gap, b);
        assert(whole.drop_first() =~= rest + seq![gap] + b);
    } else {
        lemma_word_len(a);
        lemma_word_len(whole);
        let n = word_len(a) as int;
        assert forall|i: int| 0 <= i < n implies whole[i] == a[i] by {}
        if word_len(whole) < n {
            assert(whole[word_len(whole) as int] == a[word_len(whole) as int]);
        }
        if word_len(whole) > n {
            if n < a.len() {
                assert(whole[n] == a[n]);
            } else {
                assert(whole[n] == gap);
            }
        }
        assert(word_len(whole) == n);
        let rest = a.skip(n);
        words_are_split_at_white_space(rest, gap, b);
        assert(whole.skip(n) =~= rest + seq![gap] + b);
        assert(whole.take(n) =~= a.take(n));
        assert(words(whole) =~= words(a) + words(b));
    }
}

/// The first line is what stands before the first line break, trimmed.
pub proof fn the_first_line_ends_at_the_first_break(line: Seq<char>, rest: Seq<char>)
    requires
        forall|i: int| 0 <= i < line.len() ==> #[trigger] line[i] != '\n',
    ensures
        first_line_of(line) == trim(line),
        first_line_of(line + seq!['\n'] + rest) == trim(line),
{
    let whole = line + seq!['\n'] + rest;
    lemma_length_before(line, '\n');
    lemma_length_before(whole, '\n');
    let n = length_before(whole, '\n') as int;
    if n < line.len() {
        assert(whole[n] == line[n]);
    }
    if n > line.len() {
        assert(whole[line.len() as int] == '\n');
    }
    assert(whole.take(n) =~= line);
    assert(line.take(line.len() as int) =~= line);
}

/// Texts are ordered by the first character in which they differ, and a text
/// comes before what it is the beginning of.
pub proof fn the_first_difference_orders_texts(
    common: Seq<char>,
    c: char,
    d: char,
    a: Seq<char>,
    b: Seq<char>,
)
    requires
        c != d,
    ensures
        before(common + seq![c] + a, common + seq![d] + b) <==> c < d,
        before(common, common + seq![c] + a),
        !before(common + seq![c] + a, common),
        !before(common, common),
    decreases common.len(),
{
    let left = common + seq![c] + a;
    let right = common + seq![d] + b;
    if common.len() > 0 {
        let rest = common.drop_first();
        the_first_difference_orders_texts(rest, c, d, a, b);
        assert(left.drop_first() =~= rest + seq![c] + a);
        assert(right.drop_first() =~= rest + seq![d] + b);
    } else {
        assert(left[0] == c && right[0] == d);
    }
}

/// A list of strings holds the text of each, in order.
pub proof fn strings_hold_their_texts(strings: Seq<String>, string: String, i: int)
    ensures
        texts(strings).len() == strings.len(),
        0 <= i < strings.len() ==> texts(strings)[i] == strings[i]@,
        optional_text(Some(string)) == Some(string@),
        optional_text(None) is None,
{
}

/// Whether a text stands in another is whether that can be cut into what is
/// before it, it, and what is behind it.
pub proof fn pieces_are_cut_out(s: Seq<char>, part: Seq<char>, at: int)
    ensures
        stands_at(s, part, at) <==> 0 <= at && at + part.len() <= s.len() && s == s.take(at) + part
            + s.skip(at + part.len()),
        has_piece(s, part) <==> exists|at: int| #[trigger] stands_at(s, part, at),
{
    if 0 <= at && at + part.len() <= s.len() {
        let whole = s.take(at) + part + s.skip(at + part.len());
        if stands_at(s, part, at) {
            assert forall|i: int| 0 <= i < s.len() implies s[i] == whole[i] by {
                if at <= i < at + part.len() {
                    assert(s.subrange(at, at + part.len())[i - at] == part[i - at]);
                }
            }
            assert(s =~= whole);
        }
        if s == whole {
            assert forall|i: int| 0 <= i < part.len() implies s.subrange(at, at + part.len())[i]
                == part[i] by {
                assert(s[at + i] == whole[at + i]);
            }
            assert(s.subrange(at, at + part.len()) =~= part);
        }
    }
}

} // verus!

//! Matching tool names against patterns where `*` stands for any run of
//! characters.
//!
//! A dependency for this would be more machinery than the feature is worth.

use vstd::prelude::*;

use crate::text;
use crate::text::{chars_of, position_of, same_text};

verus! {

/// Whether `name` has the shape `pattern` describes: a `*` stands for any run
/// of characters, the empty one included, and any other character for itself.
pub open spec fn globs(pattern: Seq<char>, name: Seq<char>) -> bool
    decreases pattern.len(), name.len(),
{
    if pattern.len() == 0 {
        name.len() == 0
    } else if pattern[0] == '*' {
        ||| globs(pattern.drop_first(), name)
        ||| name.len() > 0 && globs(pattern, name.drop_first())
    } else {
        name.len() > 0 && name[0] == pattern[0] && globs(pattern.drop_first(), name.drop_first())
    }
}

/// A pattern that begins with plain characters matches what begins with them
/// and goes on to match the rest of the pattern.
proof fn lemma_plain_prefix(pattern: Seq<char>, name: Seq<char>, n: int)
    requires
        0 <= n <= pattern.len(),
        forall|i: int| 0 <= i < n ==> #[trigger] pattern[i] != '*',
    ensures
        globs(pattern, name) <==> (text::stands_at(name, pattern.take(n), 0) && globs(
            pattern.skip(n),
            name.skip(n),
        )),
    decreases n,
{
    if n == 0 {
        assert(pattern.skip(0) =~= pattern);
        assert(name.skip(0) =~= name);
        assert(name.subrange(0, 0) =~= pattern.take(0));
    } else if name.len() > 0 {
        let p = pattern.drop_first();
        let m = name.drop_first();
        lemma_plain_prefix(p, m, n - 1);
        assert(p.skip(n - 1) =~= pattern.skip(n));
        if name.len() >= n {
            assert(m.skip(n - 1) =~= name.skip(n));
            let piece = name.subrange(0, n);
            let rest = m.subrange(0, n - 1);
            if piece == pattern.take(n) {
                assert forall|i: int| 0 <= i < n - 1 implies rest[i] == p.take(n - 1)[i] by {
                    assert(piece[i + 1] == pattern.take(n)[i + 1]);
                }
                assert(rest =~= p.take(n - 1));
                assert(piece[0] == pattern.take(n)[0]);
            }
            if rest == p.take(n - 1) && name[0] == pattern[0] {
                assert forall|i: int| 0 <= i < n implies piece[i] == pattern.take(n)[i] by {
                    if i > 0 {
                        assert(rest[i - 1] == p.take(n - 1)[i - 1]);
                    }
                }
                assert(piece =~= pattern.take(n));
            }
        }
    }
}

/// A pattern that begins with `*` matches what ends in a match of the rest.
proof fn lemma_star(pattern: Seq<char>, name: Seq<char>)
    requires
        pattern.len() > 0,
        pattern[0] == '*',
    ensures
        globs(pattern, name) <==> exists|k: int|
            0 <= k <= name.len() && #[trigger] globs(pattern.drop_first(), name.skip(k)),
    decreases name.len(),
{
    let rest = pattern.drop_first();
    assert(name.skip(0) =~= name);
    if globs(rest, name) {
        assert(globs(rest, name.skip(0)));
    }
    if name.len() > 0 {
        let shorter = name.drop_first();
        lemma_star(pattern, shorter);
        if globs(pattern, shorter) {
            let k = choose|k: int| 0 <= k <= shorter.len() && #[trigger] globs(
                rest,
                shorter.skip(k),
            );
            assert(shorter.skip(k) =~= name.skip(k + 1));
            assert(globs(rest, name.skip(k + 1)));
        }
    }
    if exists|k: int| 0 <= k <= name.len() && #[trigger] globs(rest, name.skip(k)) {
        let k = choose|k: int| 0 <= k <= name.len() && #[trigger] globs(rest, name.skip(k));
        if k > 0 {
            assert(name.drop_first().skip(k - 1) =~= name.skip(k));
            assert(globs(rest, name.drop_first().skip(k - 1)));
        }
    }
}

/// What a `*` may begin with costs nothing: a match further on is a match
/// from here.
proof fn lemma_star_skips(pattern: Seq<char>, name: Seq<char>, k: int)
    requires
        pattern.len() > 0,
        pattern[0] == '*',
        0 <= k <= name.len(),
        globs(pattern, name.skip(k)),
    ensures
        globs(pattern, name),
    decreases k,
{
    if k > 0 {
        assert(name.drop_first().skip(k - 1) =~= name.skip(k));
        lemma_star_skips(pattern, name.drop_first(), k - 1);
    } else {
        assert(name.skip(0) =~= name);
    }
}

/// Whether the characters of `pattern` from `from` to `to` stand in `name` at
/// position `at`.
fn run_at(pattern: &Vec<char>, from: usize, to: usize, name: &Vec<char>, at: usize) -> (yes: bool)
    requires
        from <= to <= pattern@.len(),
        at <= name@.len(),
    ensures
        yes == text::stands_at(name@, pattern@.subrange(from as int, to as int), at as int),
{
    if to - from > name.len() - at {
        return false;
    }
    let count: usize = name.len();
    let ghost piece = pattern@.subrange(from as int, to as int);
    let ghost window = name@.subrange(at as int, at + (to - from));
    let mut i: usize = 0;
    while i < to - from
        invariant
            i <= to - from,
            from <= to <= pattern@.len(),
            at + (to - from) <= count == name@.len(),
            piece == pattern@.subrange(from as int, to as int),
            window == name@.subrange(at as int, at + (to - from)),
            piece.take(i as int) == window.take(i as int),
        decreases to - from - i,
    {
        assert(piece[i as int] == pattern@[from + i] && window[i as int] == name@[at + i]);
        if pattern[from + i] != name[at + i] {
            return false;
        }
        assert(piece.take(i + 1) =~= piece.take(i as int).push(piece[i as int]));
        assert(window.take(i + 1) =~= window.take(i as int).push(window[i as int]));
        i += 1;
    }
    assert(piece.take(i as int) =~= piece);
    assert(window.take(i as int) =~= window);
    true
}

/// The first position from `start` on at which the characters of `pattern`
/// from `from` to `to` stand in `name`.
fn find_run(
    pattern: &Vec<char>,
    from: usize,
    to: usize,
    name: &Vec<char>,
    start: usize,
) -> (found: Option<usize>)
    requires
        from <= to <= pattern@.len(),
        start <= name@.len(),
    ensures
        ({
            let piece = pattern@.subrange(from as int, to as int);
            match found {
                Some(at) => {
                    &&& start <= at
                    &&& text::stands_at(name@, piece, at as int)
                    &&& forall|k: int| start <= k < at ==> !#[trigger] text::stands_at(name@, piece, k)
                },
                None => forall|k: int|
                    start <= k <= name@.len() ==> !#[trigger] text::stands_at(name@, piece, k),
            }
        }),
{
    let mut at: usize = start;
    loop
        invariant
            from <= to <= pattern@.len(),
            start <= at <= name@.len(),
            forall|k: int|
                start <= k < at ==> !#[trigger] text::stands_at(
                    name@,
                    pattern@.subrange(from as int, to as int),
                    k,
                ),
        decreases name@.len() - at,
    {
        if run_at(pattern, from, to, name, at) {
            return Some(at);
        }
        if at == name.len() {
            return None;
        }
        at += 1;
    }
}

/// One `*` and the plain piece behind it, with another `*` to follow: the
/// first place the piece stands at decides, and without one nothing matches.
proof fn lemma_middle(pattern: Seq<char>, name: Seq<char>, n: int, at: Option<int>)
    requires
        0 <= n,
        n + 1 < pattern.len(),
        pattern[0] == '*',
        pattern[n + 1] == '*',
        forall|i: int| 0 < i <= n ==> #[trigger] pattern[i] != '*',
        match at {
            Some(at) => {
                &&& text::stands_at(name, pattern.subrange(1, n + 1), at)
                &&& forall|k: int|
                    0 <= k < at ==> !#[trigger] text::stands_at(
                        name,
                        pattern.subrange(1, n + 1),
                        k,
                    )
            },
            None => forall|k: int|
                0 <= k <= name.len() ==> !#[trigger] text::stands_at(
                    name,
                    pattern.subrange(1, n + 1),
                    k,
                ),
        },
    ensures
        globs(pattern, name) <==> at is Some && globs(
            pattern.skip(n + 1),
            name.skip(at->Some_0 + n),
        ),
{
    let piece = pattern.subrange(1, n + 1);
    let behind = pattern.drop_first();
    let next = pattern.skip(n + 1);
    assert(behind.take(n) =~= piece);
    assert(behind.skip(n) =~= next);
    lemma_star(pattern, name);
    if globs(pattern, name) {
        let k = choose|k: int| 0 <= k <= name.len() && #[trigger] globs(behind, name.skip(k));
        lemma_plain_prefix(behind, name.skip(k), n);
        assert(name.skip(k).subrange(0, n) =~= name.subrange(k, k + n));
        assert(text::stands_at(name, piece, k));
        let first = at->Some_0;
        assert(name.skip(k).skip(n) =~= name.skip(k + n));
        assert(name.skip(first + n).skip(k - first) =~= name.skip(k + n));
        lemma_star_skips(next, name.skip(first + n), k - first);
    }
    if at is Some && globs(next, name.skip(at->Some_0 + n)) {
        let first = at->Some_0;
        assert(name.skip(first).subrange(0, n) =~= name.subrange(first, first + n));
        assert(name.skip(first).skip(n) =~= name.skip(first + n));
        lemma_plain_prefix(behind, name.skip(first), n);
        assert(globs(behind, name.skip(first)));
    }
}

/// A `*` with a plain piece behind it and nothing more: what matches ends in
/// the piece.
proof fn lemma_last(pattern: Seq<char>, name: Seq<char>)
    requires
        pattern.len() > 0,
        pattern[0] == '*',
        forall|i: int| 0 < i < pattern.len() ==> #[trigger] pattern[i] != '*',
    ensures
        globs(pattern, name) <==> text::stands_at(
            name,
            pattern.drop_first(),
            name.len() - pattern.drop_first().len(),
        ),
{
    let piece = pattern.drop_first();
    let n = piece.len() as int;
    assert(piece.take(n) =~= piece);
    lemma_star(pattern, name);
    if globs(pattern, name) {
        let k = choose|k: int| 0 <= k <= name.len() && #[trigger] globs(piece, name.skip(k));
        lemma_plain_prefix(piece, name.skip(k), n);
        assert(name.skip(k).skip(n).len() == 0);
        assert(name.skip(k).subrange(0, n) =~= name.subrange(k, k + n));
    }
    let at = name.len() - n;
    if text::stands_at(name, piece, at) {
        assert(name.skip(at).subrange(0, n) =~= name.subrange(at, at + n));
        lemma_plain_prefix(piece, name.skip(at), n);
        assert(globs(piece, name.skip(at)));
    }
}

/// Whether a name has the shape a pattern describes.
pub fn glob_matches(pattern: &str, name: &str) -> (yes: bool)
    ensures
        yes == globs(pattern@, name@),
{
    let p = chars_of(pattern);
    let n = chars_of(name);
    let first = position_of(p.as_slice(), 0, '*');
    proof {
        assert(p@.skip(0) =~= p@);
        text::lemma_length_before(p@, '*');
        lemma_plain_prefix(p@, n@, first as int);
        assert(p@.subrange(0, first as int) =~= p@.take(first as int));
    }
    if first == p.len() {
        proof {
            assert(p@.take(first as int) =~= p@);
            if n@ == p@ {
                assert(n@.subrange(0, first as int) =~= p@);
            }
            if text::stands_at(n@, p@, 0) && n@.skip(first as int).len() == 0 {
                assert(n@.subrange(0, first as int) =~= n@);
            }
        }
        return same_text(pattern, name);
    }
    // A pattern not starting with `*` must match from the front.
    if !run_at(&p, 0, first, &n, 0) {
        return false;
    }
    let pattern_len: usize = p.len();
    let name_len: usize = n.len();
    let mut star: usize = first;
    let mut at: usize = first;
    loop
        invariant
            pattern_len == p@.len(),
            name_len == n@.len(),
            star < p@.len(),
            p@[star as int] == '*',
            at <= n@.len(),
            p@ == pattern@,
            n@ == name@,
            globs(pattern@, name@) == globs(p@.skip(star as int), n@.skip(at as int)),
        decreases p@.len() - star,
    {
        let from: usize = star + 1;
        let next = position_of(p.as_slice(), from, '*');
        let ghost q = p@.skip(star as int);
        let ghost m = n@.skip(at as int);
        proof {
            text::lemma_length_before(p@.skip(from as int), '*');
            assert forall|i: int| 0 < i < next - star implies #[trigger] q[i] != '*' by {
                assert(p@.skip(from as int)[i - 1] == q[i]);
            }
            assert(q.drop_first() =~= p@.skip(from as int));
        }
        if next == pattern_len {
            // The final piece must land at the end.
            let ghost piece = q.drop_first();
            proof {
                lemma_last(q, m);
                assert(piece =~= p@.subrange(from as int, next as int));
            }
            if pattern_len - from > name_len - at {
                return false;
            }
            let end: usize = name_len - (pattern_len - from);
            proof {
                assert(m.subrange(m.len() - piece.len(), m.len() as int) =~= n@.subrange(
                    end as int,
                    n@.len() as int,
                ));
            }
            return run_at(&p, from, next, &n, end);
        }
        let found = find_run(&p, from, next, &n, at);
        proof {
            let length = next - from;
            let piece = p@.subrange(from as int, next as int);
            assert(q.subrange(1, length + 1) =~= piece);
            assert(q[length + 1] == p@.skip(from as int)[length]);
            assert forall|k: int|
                0 <= k <= m.len() implies #[trigger] text::stands_at(m, piece, k)
                == text::stands_at(n@, piece, at + k) by {
                if k + piece.len() <= m.len() {
                    assert(m.subrange(k, k + piece.len()) =~= n@.subrange(
                        at + k,
                        at + k + piece.len(),
                    ));
                }
            }
            let place: Option<int> = match found {
                Some(found) => Some(found - at),
                None => None,
            };
            lemma_middle(q, m, length, place);
            assert(q.skip(length + 1) =~= p@.skip(next as int));
            if let Some(found) = found {
                assert(m.skip(found - at + length) =~= n@.skip(found + length));
            }
        }
        match found {
            Some(found) => {
                at = found + (next - from);
                star = next;
            },
            None => {
                return false;
            },
        }
    }
}

// ── laws ─────────────────────────────────────────────────────────────

/// A pattern without a `*` matches its own text and nothing else.
pub proof fn a_plain_pattern_is_an_exact_match(pattern: Seq<char>, name: Seq<char>)
    requires
        !pattern.contains('*'),
    ensures
        globs(pattern, name) <==> pattern == name,
{
    let n = pattern.len() as int;
    assert forall|i: int| 0 <= i < n implies #[trigger] pattern[i] != '*' by {
        assert(pattern.contains(pattern[i]));
    }
    lemma_plain_prefix(pattern, name, n);
    assert(pattern.take(n) =~= pattern);
    if pattern == name {
        assert(name.subrange(0, n) =~= pattern);
    }
    if globs(pattern, name) {
        assert(name.skip(n).len() == 0);
        assert(name.subrange(0, n) =~= name);
    }
}

/// A lone `*` matches every name.
pub proof fn a_star_matches_anything(name: Seq<char>)
    ensures
        globs(seq!['*'], name),
    decreases name.len(),
{
    if name.len() > 0 {
        a_star_matches_anything(name.drop_first());
    } else {
        reveal_with_fuel(globs, 2);
    }
}

/// A prefix followed by `*` matches the names that begin with it, and a `*`
/// followed by a suffix those that end in it.
pub proof fn prefixes_and_suffixes_match(plain: Seq<char>, name: Seq<char>)
    requires
        !plain.contains('*'),
    ensures
        globs(plain.push('*'), name) <==> text::stands_at(name, plain, 0),
        globs(seq!['*'] + plain, name) <==> text::stands_at(
            name,
            plain,
            name.len() - plain.len(),
        ),
{
    let n = plain.len() as int;
    let prefix = plain.push('*');
    let suffix = seq!['*'] + plain;
    assert forall|i: int| 0 <= i < n implies #[trigger] prefix[i] != '*' by {
        assert(plain.contains(plain[i]));
    }
    lemma_plain_prefix(prefix, name, n);
    assert(prefix.take(n) =~= plain);
    assert(prefix.skip(n) =~= seq!['*']);
    if n <= name.len() {
        a_star_matches_anything(name.skip(n));
    }
    assert forall|i: int| 0 < i < suffix.len() implies #[trigger] suffix[i] != '*' by {
        assert(plain.contains(plain[i - 1]));
    }
    lemma_last(suffix, name);
    assert(suffix.drop_first() =~= plain);
}

/// What a pattern matches: one without `*` matches itself; otherwise what
/// begins with all before its first `*` and, anywhere behind that, goes on to
/// what the rest of the pattern matches.
pub proof fn a_star_stands_for_any_run(plain: Seq<char>, rest: Seq<char>, name: Seq<char>)
    requires
        forall|i: int| 0 <= i < plain.len() ==> #[trigger] plain[i] != '*',
    ensures
        globs(plain, name) <==> plain == name,
        globs(plain + seq!['*'] + rest, name) <==> plain.is_prefix_of(name) && exists|k: int|
            plain.len() <= k <= name.len() && #[trigger] globs(rest, name.skip(k)),
{
    let pattern = plain + seq!['*'] + rest;
    let n = plain.len() as int;
    a_plain_pattern_is_an_exact_match(plain, name);
    assert forall|i: int| 0 <= i < n implies #[trigger] pattern[i] != '*' by {
        assert(pattern[i] == plain[i]);
    }
    lemma_plain_prefix(pattern, name, n);
    assert(pattern.take(n) =~= plain);
    assert(pattern.skip(n) =~= seq!['*'] + rest);
    let tail = name.skip(n);
    lemma_star(pattern.skip(n), tail);
    assert(pattern.skip(n).drop_first() =~= rest);
    if plain.is_prefix_of(name) {
        assert(name.subrange(0, n) =~= plain);
    }
    if text::stands_at(name, plain, 0) {
        assert(name.subrange(0, n) =~= plain);
        assert(plain.is_prefix_of(name));
        if exists|k: int| 0 <= k <= tail.len() && #[trigger] globs(rest, tail.skip(k)) {
            let k = choose|k: int| 0 <= k <= tail.len() && #[trigger] globs(rest, tail.skip(k));
            assert(tail.skip(k) =~= name.skip(n + k));
            assert(globs(rest, name.skip(n + k)));
        }
        if exists|k: int| n <= k <= name.len() && #[trigger] globs(rest, name.skip(k)) {
            let k = choose|k: int| n <= k <= name.len() && #[trigger] globs(rest, name.skip(k));
            assert(tail.skip(k - n) =~= name.skip(k));
            assert(globs(rest, tail.skip(k - n)));
        }
    }
}

} // verus!

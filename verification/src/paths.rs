//! Paths, as text with `/` between their parts.
//!
//! A path is what it names, not how it is spelled: `a//b`, `a/./b` and `a/b/`
//! all name what `a/b` names. What a path is made of, which path encloses it
//! and how paths are ordered follow the standard library's rules for Unix
//! paths.

use vstd::prelude::*;

use crate::text;
use crate::text::{chars_of, same_text, slice_of, text_before};

verus! {

// ── parts ────────────────────────────────────────────────────────────

/// How many characters a path starts with before its first name: one for the
/// `/` of an absolute path or the `.` a relative path may lead with.
pub open spec fn lead(path: Seq<char>) -> nat {
    if path.len() > 0 && path[0] == '/' {
        1
    } else if path.len() > 0 && path[0] == '.' && (path.len() == 1 || path[1] == '/') {
        1
    } else {
        0
    }
}

/// Where the last stretch of `path` behind its lead begins: after its last
/// `/`, or at the end of the lead.
pub open spec fn stretch_from(path: Seq<char>, lead: nat) -> nat
    decreases path.len(),
{
    if path.len() <= lead || path.last() == '/' {
        path.len()
    } else {
        stretch_from(path.drop_last(), lead)
    }
}

/// The last stretch of a path: what stands behind its last `/`.
pub open spec fn stretch(path: Seq<char>, lead: nat) -> Seq<char> {
    path.skip(stretch_from(path, lead) as int)
}

/// A path without its last stretch and the `/` before it.
pub open spec fn without_stretch(path: Seq<char>, lead: nat) -> Seq<char> {
    let from = stretch_from(path, lead);
    if from > lead {
        path.take(from - 1)
    } else {
        path.take(from as int)
    }
}

/// Whether a stretch names nothing: it is empty, or a `.` on the way.
pub open spec fn names_nothing(part: Seq<char>) -> bool {
    part.len() == 0 || part == seq!['.']
}

/// The last stretch begins within the path.
proof fn lemma_stretch_from(path: Seq<char>, lead: nat)
    requires
        lead <= path.len(),
    ensures
        lead <= stretch_from(path, lead) <= path.len(),
        stretch_from(path, lead) > lead ==> path[stretch_from(path, lead) - 1] == '/',
        forall|i: int| stretch_from(path, lead) <= i < path.len() ==> #[trigger] path[i] != '/',
    decreases path.len(),
{
    if path.len() > lead && path.last() != '/' {
        lemma_stretch_from(path.drop_last(), lead);
        let from = stretch_from(path, lead) as int;
        assert forall|i: int| from <= i < path.len() implies #[trigger] path[i] != '/' by {
            if i < path.len() - 1 {
                assert(path[i] == path.drop_last()[i]);
            }
        }
    }
}

/// Taking a stretch away shortens a path.
pub proof fn lemma_without_stretch(path: Seq<char>, lead: nat)
    requires
        lead < path.len(),
    ensures
        lead <= without_stretch(path, lead).len() < path.len(),
{
    lemma_stretch_from(path, lead);
}

/// The names behind the lead of a path, in order.
pub open spec fn names_in(path: Seq<char>, lead: nat) -> Seq<Seq<char>>
    decreases path.len(),
{
    if path.len() <= lead {
        seq![]
    } else {
        proof {
            lemma_without_stretch(path, lead);
        }
        let earlier = names_in(without_stretch(path, lead), lead);
        let part = stretch(path, lead);
        if names_nothing(part) {
            earlier
        } else {
            earlier.push(part)
        }
    }
}

/// What a path is made of: its lead, where it has one, and its names.
pub open spec fn parts(path: Seq<char>) -> Seq<Seq<char>> {
    if lead(path) == 1 {
        seq![path.take(1)] + names_in(path, 1)
    } else {
        names_in(path, 0)
    }
}

/// A path without the stretches at its end that name nothing.
pub open spec fn trimmed(path: Seq<char>, lead: nat) -> Seq<char>
    decreases path.len(),
{
    if path.len() > lead && names_nothing(stretch(path, lead)) {
        proof {
            lemma_without_stretch(path, lead);
        }
        trimmed(without_stretch(path, lead), lead)
    } else {
        path
    }
}

/// The path that encloses a path: all of it but its last name. The root and
/// the empty path have none.
pub open spec fn parent_of(path: Seq<char>) -> Option<Seq<char>> {
    let start = lead(path);
    let named = trimmed(path, start);
    if named.len() > start {
        Some(trimmed(without_stretch(named, start), start))
    } else if start == 1 && path[0] == '.' {
        Some(seq![])
    } else {
        None
    }
}

/// How many characters a path starts with before its first name.
fn lead_of(path: &Vec<char>) -> (start: usize)
    ensures
        start == lead(path@),
        start <= path@.len(),
        start <= 1,
{
    if path.len() > 0 && path[0] == '/' {
        1
    } else if path.len() > 0 && path[0] == '.' && (path.len() == 1 || path[1] == '/') {
        1
    } else {
        0
    }
}

/// Where the last stretch of the first `end` characters begins.
fn last_stretch(path: &Vec<char>, start: usize, end: usize) -> (from: usize)
    requires
        start <= end <= path@.len(),
    ensures
        start <= from <= end,
        from == stretch_from(path@.take(end as int), start as nat),
{
    let mut from: usize = end;
    while from > start && path[from - 1] != '/'
        invariant
            start <= from <= end <= path@.len(),
            stretch_from(path@.take(end as int), start as nat) == stretch_from(
                path@.take(from as int),
                start as nat,
            ),
        decreases from,
    {
        assert(path@.take(from as int).drop_last() =~= path@.take(from - 1));
        from -= 1;
    }
    from
}

/// Whether the characters from `from` to `end` name nothing.
fn nothing_named(path: &Vec<char>, from: usize, end: usize) -> (yes: bool)
    requires
        from <= end <= path@.len(),
    ensures
        yes == names_nothing(path@.subrange(from as int, end as int)),
{
    let ghost part = path@.subrange(from as int, end as int);
    if from == end {
        return true;
    }
    if end - from == 1 && path[from] == '.' {
        assert(part =~= seq!['.']);
        return true;
    }
    proof {
        if part == seq!['.'] {
            assert(part.len() == 1 && part[0] == '.');
        }
    }
    false
}

/// Where a path ends without the stretches at its end that name nothing.
fn trimmed_end(path: &Vec<char>, start: usize, given: usize) -> (end: usize)
    requires
        start <= given <= path@.len(),
    ensures
        start <= end <= given,
        path@.take(end as int) == trimmed(path@.take(given as int), start as nat),
{
    let mut end: usize = given;
    while end > start
        invariant
            start <= end <= given <= path@.len(),
            trimmed(path@.take(given as int), start as nat) == trimmed(
                path@.take(end as int),
                start as nat,
            ),
        ensures
            start <= end <= given,
            path@.take(end as int) == trimmed(path@.take(given as int), start as nat),
        decreases end,
    {
        let ghost whole = path@.take(end as int);
        let from = last_stretch(path, start, end);
        assert(whole.skip(from as int) =~= path@.subrange(from as int, end as int));
        if !nothing_named(path, from, end) {
            break;
        }
        proof {
            lemma_without_stretch(whole, start as nat);
            assert(whole.take(from as int) =~= path@.take(from as int));
            if from > start {
                assert(whole.take(from - 1) =~= path@.take(from - 1));
            }
        }
        end = if from > start {
            from - 1
        } else {
            from
        };
    }
    end
}

/// The path that encloses a path, where there is one.
pub fn parent(path: &str) -> (enclosing: Option<String>)
    ensures
        text::optional_text(enclosing) == parent_of(path@),
{
    let chars = chars_of(path);
    let start = lead_of(&chars);
    let end = trimmed_end(&chars, start, chars.len());
    assert(chars@.take(chars@.len() as int) =~= chars@);
    if end == start {
        if start == 1 && chars[0] == '.' {
            let empty = String::new();
            assert(empty@ =~= seq![]);
            return Some(empty);
        }
        return None;
    }
    let ghost named = chars@.take(end as int);
    let from = last_stretch(&chars, start, end);
    proof {
        lemma_without_stretch(named, start as nat);
        assert(named.take(from as int) =~= chars@.take(from as int));
        if from > start {
            assert(named.take(from - 1) =~= chars@.take(from - 1));
        }
    }
    let cut: usize = if from > start {
        from - 1
    } else {
        from
    };
    let enclosing = trimmed_end(&chars, start, cut);
    assert(chars@.subrange(0, enclosing as int) =~= chars@.take(enclosing as int));
    Some(slice_of(chars.as_slice(), 0, enclosing))
}

/// What a path is made of.
pub fn parts_of(path: &str) -> (made_of: Vec<String>)
    ensures
        text::texts(made_of@) == parts(path@),
{
    let chars = chars_of(path);
    let start = lead_of(&chars);
    let mut made_of: Vec<String> = Vec::new();
    let mut end: usize = chars.len();
    assert(chars@.take(end as int) =~= chars@);
    assert(names_in(chars@, start as nat) + text::texts(made_of@) =~= names_in(
        chars@,
        start as nat,
    ));
    while end > start
        invariant
            start <= end <= chars@.len(),
            names_in(chars@, start as nat) == names_in(chars@.take(end as int), start as nat)
                + text::texts(made_of@),
        decreases end,
    {
        let ghost whole = chars@.take(end as int);
        let ghost later = text::texts(made_of@);
        let from = last_stretch(&chars, start, end);
        proof {
            lemma_without_stretch(whole, start as nat);
            assert(whole.skip(from as int) =~= chars@.subrange(from as int, end as int));
            assert(whole.take(from as int) =~= chars@.take(from as int));
            if from > start {
                assert(whole.take(from - 1) =~= chars@.take(from - 1));
            }
        }
        let ghost rest = without_stretch(whole, start as nat);
        if !nothing_named(&chars, from, end) {
            let name = slice_of(chars.as_slice(), from, end);
            let ghost part = name@;
            made_of.insert(0, name);
            assert(text::texts(made_of@) =~= seq![part] + later);
            assert(names_in(rest, start as nat).push(part) + later =~= names_in(
                rest,
                start as nat,
            ) + (seq![part] + later));
        }
        end = if from > start {
            from - 1
        } else {
            from
        };
    }
    let ghost names = text::texts(made_of@);
    assert(names_in(chars@, start as nat) =~= names);
    if start == 1 {
        let first = slice_of(chars.as_slice(), 0, 1);
        assert(chars@.subrange(0, 1) =~= chars@.take(1));
        made_of.insert(0, first);
        assert(text::texts(made_of@) =~= seq![chars@.take(1)] + names);
    }
    made_of
}

// ── order ────────────────────────────────────────────────────────────

/// Where a part stands among kinds of parts: the root comes first, then `.`,
/// then `..`, then names.
pub open spec fn rank(part: Seq<char>) -> int {
    if part == "/"@ {
        0
    } else if part == "."@ {
        1
    } else if part == ".."@ {
        2
    } else {
        3
    }
}

/// The order of parts: by kind, and names by their text.
pub open spec fn part_before(a: Seq<char>, b: Seq<char>) -> bool {
    rank(a) < rank(b) || (rank(a) == 3 && rank(b) == 3 && text::before(a, b))
}

/// The order of what paths are made of: by the first part they differ in, a
/// path before those it encloses.
pub open spec fn parts_before(a: Seq<Seq<char>>, b: Seq<Seq<char>>) -> bool
    decreases a.len(),
{
    if b.len() == 0 {
        false
    } else if a.len() == 0 {
        true
    } else if a[0] == b[0] {
        parts_before(a.drop_first(), b.drop_first())
    } else {
        part_before(a[0], b[0])
    }
}

/// The kind of a part.
fn rank_of(part: &str) -> (kind: u8)
    ensures
        kind == rank(part@),
{
    if same_text(part, "/") {
        0
    } else if same_text(part, ".") {
        1
    } else if same_text(part, "..") {
        2
    } else {
        3
    }
}

/// How two paths stand to one another.
#[derive(Debug, Clone, Copy, PartialEq, Eq, Structural)]
pub enum Standing {
    Before,
    Same,
    After,
}

/// How two paths stand to one another.
pub fn standing(a: &str, b: &str) -> (stands: Standing)
    ensures
        stands == Standing::Same <==> parts(a@) == parts(b@),
        stands == Standing::Before <==> parts_before(parts(a@), parts(b@)),
        stands == Standing::After <==> parts_before(parts(b@), parts(a@)),
{
    let left = parts_of(a);
    let right = parts_of(b);
    let ghost l = text::texts(left@);
    let ghost r = text::texts(right@);
    let mut i: usize = 0;
    proof {
        lemma_parts_total(l, r);
        assert(l.skip(0) =~= l);
        assert(r.skip(0) =~= r);
    }
    while i < left.len() && i < right.len() && same_text(left[i].as_str(), right[i].as_str())
        invariant
            i <= left@.len(),
            i <= right@.len(),
            l == text::texts(left@),
            r == text::texts(right@),
            l.take(i as int) == r.take(i as int),
            parts_before(l, r) == parts_before(l.skip(i as int), r.skip(i as int)),
            parts_before(r, l) == parts_before(r.skip(i as int), l.skip(i as int)),
        decreases left@.len() - i,
    {
        assert(l.take(i + 1) =~= l.take(i as int).push(l[i as int]));
        assert(r.take(i + 1) =~= r.take(i as int).push(r[i as int]));
        assert(l.skip(i as int).drop_first() =~= l.skip(i + 1));
        assert(r.skip(i as int).drop_first() =~= r.skip(i + 1));
        i += 1;
    }
    if i == right.len() {
        if i == left.len() {
            assert(l.take(i as int) =~= l);
            assert(r.take(i as int) =~= r);
            return Standing::Same;
        }
        return Standing::After;
    }
    if i == left.len() {
        return Standing::Before;
    }
    assert(l.skip(i as int)[0] == l[i as int]);
    assert(r.skip(i as int)[0] == r[i as int]);
    let x = left[i].as_str();
    let y = right[i].as_str();
    let kind: u8 = rank_of(x);
    let other: u8 = rank_of(y);
    if kind < other || (kind == 3 && other == 3 && text_before(x, y)) {
        Standing::Before
    } else {
        Standing::After
    }
}

/// Of two different parts exactly one comes first.
proof fn lemma_part_total(a: Seq<char>, b: Seq<char>)
    ensures
        a == b ==> !part_before(a, b),
        a != b ==> (part_before(a, b) <==> !part_before(b, a)),
{
    text::lemma_before_total(a, b);
}

/// Of two paths that name different things exactly one comes first; none comes
/// before itself.
pub proof fn lemma_parts_total(a: Seq<Seq<char>>, b: Seq<Seq<char>>)
    ensures
        a == b ==> !parts_before(a, b),
        a != b ==> (parts_before(a, b) <==> !parts_before(b, a)),
    decreases a.len(),
{
    if a.len() > 0 && b.len() > 0 {
        if a[0] == b[0] {
            lemma_parts_total(a.drop_first(), b.drop_first());
            assert(a =~= seq![a[0]] + a.drop_first());
            assert(b =~= seq![b[0]] + b.drop_first());
        } else {
            lemma_part_total(a[0], b[0]);
        }
    } else if a.len() == 0 && b.len() == 0 {
        assert(a =~= b);
    }
}

/// The order of parts is transitive.
proof fn lemma_part_transitive(a: Seq<char>, b: Seq<char>, c: Seq<char>)
    requires
        part_before(a, b),
        part_before(b, c),
    ensures
        part_before(a, c),
{
    if rank(a) == 3 && rank(c) == 3 {
        text::lemma_before_transitive(a, b, c);
    }
}

/// The order of paths is transitive.
pub proof fn lemma_parts_transitive(a: Seq<Seq<char>>, b: Seq<Seq<char>>, c: Seq<Seq<char>>)
    requires
        parts_before(a, b),
        parts_before(b, c),
    ensures
        parts_before(a, c),
    decreases a.len(),
{
    if a.len() > 0 {
        if a[0] == b[0] && b[0] == c[0] {
            lemma_parts_transitive(a.drop_first(), b.drop_first(), c.drop_first());
        } else if a[0] != b[0] && b[0] != c[0] {
            lemma_part_transitive(a[0], b[0], c[0]);
            lemma_part_total(a[0], c[0]);
        }
    }
}

// ── laws ─────────────────────────────────────────────────────────────

/// Trimming takes whole stretches away, and none that names anything.
proof fn lemma_trimmed(path: Seq<char>, start: nat)
    requires
        start <= path.len(),
    ensures
        start <= trimmed(path, start).len() <= path.len(),
        trimmed(path, start) == path.take(trimmed(path, start).len() as int),
        start < trimmed(path, start).len() < path.len() ==> path[trimmed(path, start).len() as int]
            == '/',
        names_in(trimmed(path, start), start) == names_in(path, start),
        trimmed(path, start).len() > start ==> !names_nothing(
            stretch(trimmed(path, start), start),
        ),
    decreases path.len(),
{
    if path.len() > start && names_nothing(stretch(path, start)) {
        let rest = without_stretch(path, start);
        lemma_stretch_from(path, start);
        lemma_without_stretch(path, start);
        lemma_trimmed(rest, start);
        let kept = trimmed(path, start).len() as int;
        assert(rest.take(kept) =~= path.take(kept));
    } else {
        assert(path.take(path.len() as int) =~= path);
    }
}

/// A path is enclosed by what it is made of but for its last part.
pub proof fn a_parent_lacks_the_last_part(path: Seq<char>)
    ensures
        parent_of(path) matches Some(enclosing) ==> parts(path).len() > 0 && parts(enclosing)
            == parts(path).drop_last(),
        parent_of(path) is None <==> parts(path).len() == 0 || parts(path) == seq![seq!['/']],
{
    let start = lead(path);
    let named = trimmed(path, start);
    lemma_trimmed(path, start);
    if named.len() > start {
        let cut = without_stretch(named, start);
        let enclosing = trimmed(cut, start);
        lemma_stretch_from(named, start);
        lemma_without_stretch(named, start);
        lemma_trimmed(cut, start);
        let kept = enclosing.len() as int;
        assert(cut =~= path.take(cut.len() as int));
        assert(enclosing =~= path.take(kept));
        assert(cut.len() > start ==> path[cut.len() as int] == '/');
        assert(kept > start ==> path[kept] == '/') by {
            if kept > start && kept < cut.len() {
                assert(cut[kept] == path[kept]);
            }
        }
        assert(lead(enclosing) == start);
        assert(names_in(named, start) == names_in(enclosing, start).push(stretch(named, start)));
        if start == 1 {
            assert(enclosing.take(1) =~= path.take(1));
            assert(parts(enclosing) =~= parts(path).drop_last());
            assert(parts(path).len() >= 2);
        } else {
            assert(parts(enclosing) =~= parts(path).drop_last());
            let name = stretch(named, start);
            assert(parts(path).last() == name);
            assert(name[0] == named[stretch_from(named, start) as int]);
            assert(seq!['/'][0] == '/');
        }
    } else {
        assert(names_in(named, start) =~= seq![]);
        if start == 1 {
            assert(parts(path) =~= seq![path.take(1)]);
            if path[0] == '.' {
                assert(parts(seq![]) =~= parts(path).drop_last());
                assert(path.take(1)[0] == '.');
                if parts(path) == seq![seq!['/']] {
                    assert(parts(path)[0] == seq!['/']);
                    assert(path.take(1)[0] == '/');
                }
            } else {
                assert(path.take(1) =~= seq!['/']);
                assert(parts(path) =~= seq![seq!['/']]);
            }
        }
    }
}

/// A path's name, where it has one behind its lead, is not lost by spelling it
/// with a `/` behind it.
pub proof fn a_trailing_slash_changes_nothing(path: Seq<char>)
    requires
        path.len() > 0,
    ensures
        parts(path.push('/')) == parts(path),
{
    let longer = path.push('/');
    let start = lead(path);
    assert(lead(longer) == start);
    assert(longer.take(1) =~= path.take(1));
    assert(stretch_from(longer, start) == longer.len());
    assert(without_stretch(longer, start) =~= path);
    assert(stretch(longer, start).len() == 0);
}

/// A path is read part by part: a name behind a `/` is one part more, and
/// nothing, or a `.`, behind one is none.
pub proof fn a_path_is_read_part_by_part(path: Seq<char>, name: Seq<char>)
    requires
        path.len() > 0,
        forall|i: int| 0 <= i < name.len() ==> #[trigger] name[i] != '/',
    ensures
        name.len() > 0 && name != seq!['.'] ==> parts(path + seq!['/'] + name) == parts(path).push(
            name,
        ),
        name.len() == 0 || name == seq!['.'] ==> parts(path + seq!['/'] + name) == parts(path),
{
    let longer = path + seq!['/'] + name;
    let start = lead(path);
    if path.len() == 1 {
        assert(longer[1] == '/');
    } else {
        assert(longer[1] == path[1]);
    }
    assert(longer[0] == path[0]);
    assert(lead(longer) == start);
    assert(longer.take(1) =~= path.take(1));
    lemma_stretch_behind(path, name, start);
    assert(stretch(longer, start) =~= name);
    assert(without_stretch(longer, start) =~= path);
    if start == 1 {
        assert(parts(longer) =~= (if names_nothing(name) {
            parts(path)
        } else {
            parts(path).push(name)
        }));
    }
}

proof fn lemma_stretch_behind(path: Seq<char>, name: Seq<char>, start: nat)
    requires
        start <= path.len(),
        forall|i: int| 0 <= i < name.len() ==> #[trigger] name[i] != '/',
    ensures
        stretch_from(path + seq!['/'] + name, start) == path.len() + 1,
    decreases name.len(),
{
    let longer = path + seq!['/'] + name;
    if name.len() > 0 {
        let shorter = name.drop_last();
        assert(longer.drop_last() =~= path + seq!['/'] + shorter);
        assert forall|i: int| 0 <= i < shorter.len() implies #[trigger] shorter[i] != '/' by {
            assert(shorter[i] == name[i]);
        }
        lemma_stretch_behind(path, shorter, start);
        assert(longer.last() == name.last());
        assert(name[name.len() - 1] != '/');
    } else {
        assert(longer.last() == '/');
    }
}

/// A path begins with the root, or with its first name; an empty one has no
/// parts at all.
pub proof fn a_path_begins_with_its_lead_or_a_name(name: Seq<char>)
    requires
        name.len() > 0,
        forall|i: int| 0 <= i < name.len() ==> #[trigger] name[i] != '/',
    ensures
        parts(seq![]).len() == 0,
        parts(seq!['/']) == seq![seq!['/']],
        parts(name) == seq![name],
        name != seq!['.'] ==> parts(seq!['/'] + name) == seq![seq!['/'], name],
{
    reveal_with_fuel(names_in, 2);
    assert(seq!['/'].take(1) =~= seq!['/']);
    assert(parts(seq!['/']) =~= seq![seq!['/']]);
    if lead(name) == 1 {
        assert(name.len() == 1);
        assert(name.take(1) =~= name);
        assert(parts(name) =~= seq![name]);
    } else {
        lemma_whole_stretch(name, 0);
        assert(name.skip(0) =~= name);
        assert(without_stretch(name, 0) =~= seq![]);
        if names_nothing(name) {
            assert(name[0] == '.');
        }
        assert(parts(name) =~= seq![name]);
    }
    if name != seq!['.'] {
        let rooted = seq!['/'] + name;
        assert(rooted.take(1) =~= seq!['/']);
        lemma_whole_stretch(rooted, 1);
        assert(rooted.skip(1) =~= name);
        assert(without_stretch(rooted, 1) =~= seq!['/']);
        assert(parts(rooted) =~= seq![seq!['/'], name]);
    }
}

proof fn lemma_whole_stretch(path: Seq<char>, start: nat)
    requires
        start <= path.len(),
        forall|i: int| start <= i < path.len() ==> #[trigger] path[i] != '/',
    ensures
        stretch_from(path, start) == start,
    decreases path.len(),
{
    if path.len() > start {
        let shorter = path.drop_last();
        assert forall|i: int| start <= i < shorter.len() implies #[trigger] shorter[i] != '/' by {
            assert(shorter[i] == path[i]);
        }
        assert(path[path.len() - 1] != '/');
        lemma_whole_stretch(shorter, start);
    }
}

/// What encloses a path is written as the beginning of it, without the `/` it
/// ends at unless that is the root.
pub proof fn a_parent_is_what_stands_before(path: Seq<char>)
    ensures
        parent_of(path) matches Some(enclosing) ==> enclosing.is_prefix_of(path)
            && enclosing.len() < path.len() && (enclosing.len() > 1 ==> enclosing.last() != '/'),
{
    let start = lead(path);
    let named = trimmed(path, start);
    lemma_trimmed(path, start);
    if named.len() > start {
        let cut = without_stretch(named, start);
        lemma_stretch_from(named, start);
        lemma_without_stretch(named, start);
        lemma_trimmed(cut, start);
        let enclosing = trimmed(cut, start);
        assert(cut =~= path.take(cut.len() as int));
        assert(enclosing =~= path.take(enclosing.len() as int));
        if enclosing.len() > start {
            lemma_stretch_from(enclosing, start);
            let from = stretch_from(enclosing, start) as int;
            assert(stretch(enclosing, start).len() == enclosing.len() - from);
            assert(enclosing[enclosing.len() - 1] != '/');
        }
    }
}

/// Paths are ordered by the first part in which they differ, a path before
/// what it encloses; the root comes before `.`, that before `..`, and those
/// before names, which go by their text.
pub proof fn the_first_different_part_orders_paths(
    common: Seq<Seq<char>>,
    x: Seq<char>,
    y: Seq<char>,
    a: Seq<Seq<char>>,
    b: Seq<Seq<char>>,
)
    requires
        x != y,
    ensures
        parts_before(common + seq![x] + a, common + seq![y] + b) <==> part_before(x, y),
        parts_before(common, common + seq![x] + a),
        !parts_before(common + seq![x] + a, common),
        x != seq!['/'] && x != seq!['.'] && x != seq!['.', '.'] && y != seq!['/'] && y != seq!['.']
            && y != seq!['.', '.'] ==> (part_before(x, y) <==> text::before(x, y)),
        x == seq!['/'] ==> part_before(x, y),
        x == seq!['.'] ==> (part_before(x, y) <==> y != seq!['/']),
        x == seq!['.', '.'] ==> (part_before(x, y) <==> y != seq!['/'] && y != seq!['.']),
        y == seq!['/'] || y == seq!['.'] || y == seq!['.', '.'] ==> (x != seq!['/'] && x != seq![
            '.',
        ] && x != seq!['.', '.'] ==> !part_before(x, y)),
    decreases common.len(),
{
    reveal_strlit("/");
    reveal_strlit(".");
    reveal_strlit("..");
    assert("/"@ =~= seq!['/']);
    assert("."@ =~= seq!['.']);
    assert(".."@ =~= seq!['.', '.']);
    assert(seq!['/'][0] == '/' && seq!['.'][0] == '.' && seq!['.', '.'].len() == 2);
    let left = common + seq![x] + a;
    let right = common + seq![y] + b;
    if common.len() > 0 {
        let rest = common.drop_first();
        the_first_different_part_orders_paths(rest, x, y, a, b);
        assert(left.drop_first() =~= rest + seq![x] + a);
        assert(right.drop_first() =~= rest + seq![y] + b);
    } else {
        assert(left[0] == x && right[0] == y);
    }
}

} // verus!

//! Watch sets and fingerprints for custom predicate caching.
//!
//! A predicate emits [`CustomPredicateEvent`]s naming inputs whose changes
//! invalidate its result. Those events are unioned into a [`WatchSet`]. When
//! the predicate runs, a [`Fingerprints`] snapshot is taken of the watched
//! inputs; on the next sync a fresh snapshot is compared to the stored one and
//! the cached result is reused while they match.
//!
//! This module is data-model only. It does not spawn processes, look at files
//! or variables, or read the cache file.

use vstd::prelude::*;

use crate::paths;
use crate::paths::{standing, Standing};
use crate::predicate::CustomPredicateEvent;
use crate::text;
use crate::text::{same_text, text_before};

verus! {

// ── watch sets ───────────────────────────────────────────────────────

/// How long the predicate result may be cached, independent of file / env
/// invalidation.
#[derive(Debug, Clone, Copy, PartialEq, Eq, Structural)]
pub enum CacheTtl {
    /// No `WatchTime` events were emitted; the result never becomes stale by
    /// time alone.
    Forever,
    /// The shortest `WatchTime(N>0)` reported by the predicate, in
    /// milliseconds.
    For(u64),
    /// `WatchTime(0)` was emitted; the result must not be cached.
    Never,
}

impl Default for CacheTtl {
    fn default() -> (ttl: Self)
        ensures
            ttl == CacheTtl::Forever,
    {
        CacheTtl::Forever
    }
}

/// The union of watched inputs and cache lifetime derived from one predicate
/// execution.
///
/// Sets are equal where they watch the same; how a path is spelled does not
/// matter.
#[derive(Debug, Clone)]
pub struct WatchSet {
    /// The watched files in path order, each once.
    pub files: Vec<String>,
    /// The watched variables in dictionary order, each once.
    pub env: Vec<String>,
    pub cache_ttl: CacheTtl,
}

impl Default for WatchSet {
    fn default() -> (set: Self)
        ensures
            set.files@.len() == 0,
            set.env@.len() == 0,
            set.cache_ttl == CacheTtl::Forever,
    {
        WatchSet { files: Vec::new(), env: Vec::new(), cache_ttl: CacheTtl::Forever }
    }
}

/// What each of some paths is made of.
pub open spec fn all_parts(files: Seq<String>) -> Seq<Seq<Seq<char>>> {
    files.map_values(|file: String| paths::parts(file@))
}

/// What a set watches, and for how long.
#[verifier::ext_equal]
pub struct WatchSetView {
    pub files: Seq<Seq<Seq<char>>>,
    pub env: Seq<Seq<char>>,
    pub cache_ttl: CacheTtl,
}

impl View for WatchSet {
    type V = WatchSetView;

    open spec fn view(&self) -> WatchSetView {
        WatchSetView {
            files: all_parts(self.files@),
            env: text::texts(self.env@),
            cache_ttl: self.cache_ttl,
        }
    }
}

/// Whether two lists name the same files in the same order.
fn same_paths(a: &Vec<String>, b: &Vec<String>) -> (same: bool)
    ensures
        same == (all_parts(a@) == all_parts(b@)),
{
    let ghost ours = all_parts(a@);
    let ghost theirs = all_parts(b@);
    if a.len() != b.len() {
        assert(ours.len() != theirs.len());
        return false;
    }
    let mut i: usize = 0;
    while i < a.len()
        invariant
            i <= a@.len(),
            a@.len() == b@.len(),
            ours == all_parts(a@),
            theirs == all_parts(b@),
            forall|j: int| 0 <= j < i ==> #[trigger] ours[j] == theirs[j],
        decreases a@.len() - i,
    {
        assert(ours[i as int] == paths::parts(a@[i as int]@));
        assert(theirs[i as int] == paths::parts(b@[i as int]@));
        if standing(a[i].as_str(), b[i].as_str()) != Standing::Same {
            return false;
        }
        i += 1;
    }
    assert(ours =~= theirs);
    true
}

/// Whether two lists hold the same texts in the same order.
fn same_names(a: &Vec<String>, b: &Vec<String>) -> (same: bool)
    ensures
        same == (text::texts(a@) == text::texts(b@)),
{
    let ghost ours = text::texts(a@);
    let ghost theirs = text::texts(b@);
    if a.len() != b.len() {
        assert(ours.len() != theirs.len());
        return false;
    }
    let mut i: usize = 0;
    while i < a.len()
        invariant
            i <= a@.len(),
            a@.len() == b@.len(),
            ours == text::texts(a@),
            theirs == text::texts(b@),
            forall|j: int| 0 <= j < i ==> #[trigger] ours[j] == theirs[j],
        decreases a@.len() - i,
    {
        assert(ours[i as int] == a@[i as int]@);
        assert(theirs[i as int] == b@[i as int]@);
        if !same_text(a[i].as_str(), b[i].as_str()) {
            return false;
        }
        i += 1;
    }
    assert(ours =~= theirs);
    true
}

impl WatchSet {
    /// Whether two sets watch the same.
    pub fn matches(&self, other: &WatchSet) -> (same: bool)
        ensures
            same == (self@ == other@),
    {
        same_paths(&self.files, &other.files) && same_names(&self.env, &other.env)
            && self.cache_ttl == other.cache_ttl
    }
}

impl PartialEq for WatchSet {
    fn eq(&self, other: &Self) -> (same: bool) {
        self.matches(other)
    }
}

impl vstd::std_specs::cmp::PartialEqSpecImpl for WatchSet {
    open spec fn obeys_eq_spec() -> bool {
        true
    }

    open spec fn eq_spec(&self, other: &Self) -> bool {
        self@ == other@
    }
}

impl Eq for WatchSet {}

/// Whether paths stand in path order, each once.
pub open spec fn in_path_order(files: Seq<Seq<Seq<char>>>) -> bool {
    forall|i: int, j: int|
        0 <= i < j < files.len() ==> paths::parts_before(#[trigger] files[i], #[trigger] files[j])
}

/// Whether texts stand in dictionary order, each once.
pub open spec fn in_text_order(names: Seq<Seq<char>>) -> bool {
    forall|i: int, j: int|
        0 <= i < j < names.len() ==> text::before(#[trigger] names[i], #[trigger] names[j])
}

/// Whether an event watches the file that is made of these parts.
pub open spec fn watches_file(event: CustomPredicateEvent, parts: Seq<Seq<char>>) -> bool {
    event matches CustomPredicateEvent::WatchFile(path) && paths::parts(path@) == parts
}

/// Whether an event watches a variable.
pub open spec fn watches_env(event: CustomPredicateEvent, name: Seq<char>) -> bool {
    event matches CustomPredicateEvent::WatchEnv(watched) && watched@ == name
}

/// Whether an event bounds how long the result may be kept by `ms`.
pub open spec fn watches_time(event: CustomPredicateEvent, ms: u64) -> bool {
    event == CustomPredicateEvent::WatchTime(ms)
}

/// Whether any of some events watches the file that is made of these parts.
pub open spec fn file_watched(
    events: Seq<CustomPredicateEvent>,
    parts: Seq<Seq<char>>,
) -> bool {
    exists|i: int| 0 <= i < events.len() && watches_file(#[trigger] events[i], parts)
}

/// Whether any of some events watches a variable.
pub open spec fn env_watched(events: Seq<CustomPredicateEvent>, name: Seq<char>) -> bool {
    exists|i: int| 0 <= i < events.len() && watches_env(#[trigger] events[i], name)
}

/// Whether any of some events bounds how long the result may be kept by `ms`.
pub open spec fn time_watched(events: Seq<CustomPredicateEvent>, ms: u64) -> bool {
    exists|i: int| 0 <= i < events.len() && watches_time(#[trigger] events[i], ms)
}

/// Whether a lifetime is what some events allow: the shortest they name, none
/// at all where one names zero, and no limit where none names any.
pub open spec fn allows(events: Seq<CustomPredicateEvent>, ttl: CacheTtl) -> bool {
    match ttl {
        CacheTtl::Never => time_watched(events, 0),
        CacheTtl::For(ms) => {
            &&& !time_watched(events, 0)
            &&& time_watched(events, ms)
            &&& forall|t: u64| #[trigger] time_watched(events, t) ==> ms <= t
        },
        CacheTtl::Forever => forall|t: u64| !#[trigger] time_watched(events, t),
    }
}

/// Whether a set is the union of some events: their files and variables, each
/// once and in order, and the lifetime they allow. A file is kept as one of
/// the events spells it.
pub open spec fn unites(events: Seq<CustomPredicateEvent>, set: WatchSet) -> bool {
    &&& in_path_order(all_parts(set.files@))
    &&& forall|parts: Seq<Seq<char>>| #[trigger]
        all_parts(set.files@).contains(parts) <==> file_watched(events, parts)
    &&& forall|i: int|
        0 <= i < set.files@.len() ==> spelled(events, (#[trigger] set.files@[i])@)
    &&& in_text_order(text::texts(set.env@))
    &&& forall|name: Seq<char>| #[trigger]
        text::texts(set.env@).contains(name) <==> env_watched(events, name)
    &&& allows(events, set.cache_ttl)
}

/// Whether one of some events names a file by this path, and none before it
/// names that file by another.
pub open spec fn spelled(events: Seq<CustomPredicateEvent>, path: Seq<char>) -> bool {
    exists|i: int|
        0 <= i < events.len() && spells_first(events, i, path) && #[trigger] watches_file(
            events[i],
            paths::parts(path),
        )
}

/// Whether the `i`-th event names a file by this path, and no event before it
/// names that file.
pub open spec fn spells_first(
    events: Seq<CustomPredicateEvent>,
    i: int,
    path: Seq<char>,
) -> bool {
    &&& events[i] matches CustomPredicateEvent::WatchFile(file) && file@ == path
    &&& forall|j: int|
        0 <= j < i ==> !watches_file(#[trigger] events[j], paths::parts(path))
}

/// Put a text among others in dictionary order, unless it is there already.
fn add_text(names: &mut Vec<String>, name: &str)
    requires
        in_text_order(text::texts(old(names)@)),
    ensures
        in_text_order(text::texts(final(names)@)),
        forall|other: Seq<char>| #[trigger]
            text::texts(final(names)@).contains(other) <==> text::texts(old(names)@).contains(other)
                || other == name@,
{
    let ghost before = text::texts(names@);
    let mut at: usize = 0;
    while at < names.len() && text_before(names[at].as_str(), name)
        invariant
            at <= names@.len(),
            before == text::texts(names@),
            forall|i: int| 0 <= i < at ==> text::before(#[trigger] before[i], name@),
        decreases names@.len() - at,
    {
        at += 1;
    }
    if at < names.len() && same_text(names[at].as_str(), name) {
        assert(before[at as int] == name@);
        return;
    }
    names.insert(at, name.to_string());
    proof {
        let after = text::texts(names@);
        assert(after =~= before.insert(at as int, name@));
        assert forall|i: int, j: int| 0 <= i < j < after.len() implies text::before(
            #[trigger] after[i],
            #[trigger] after[j],
        ) by {
            if i == at {
                text::lemma_before_total(before[at as int], name@);
                if j > at + 1 {
                    text::lemma_before_transitive(name@, before[at as int], before[j - 1]);
                }
            }
        }
        lemma_contains_insert(before, at as int, name@);
    }
}

/// What a sequence holds once something is inserted.
proof fn lemma_contains_insert<A>(s: Seq<A>, at: int, added: A)
    requires
        0 <= at <= s.len(),
    ensures
        forall|x: A| #[trigger] s.insert(at, added).contains(x) <==> s.contains(x) || x == added,
{
    let after = s.insert(at, added);
    assert forall|x: A| #[trigger] after.contains(x) <==> s.contains(x) || x == added by {
        if s.contains(x) {
            let i = choose|i: int| 0 <= i < s.len() && s[i] == x;
            assert(after[if i < at { i } else { i + 1 }] == x);
        }
        if x == added {
            assert(after[at] == x);
        }
        if after.contains(x) {
            let i = choose|i: int| 0 <= i < after.len() && after[i] == x;
            if i < at {
                assert(s[i] == x);
            } else if i > at {
                assert(s[i - 1] == x);
            }
        }
    }
}

/// Put a path among others in path order, unless it names what one of them
/// does.
fn add_path(files: &mut Vec<String>, path: &str)
    requires
        in_path_order(all_parts(old(files)@)),
    ensures
        in_path_order(all_parts(final(files)@)),
        forall|other: Seq<Seq<char>>| #[trigger]
            all_parts(final(files)@).contains(other) <==> all_parts(old(files)@).contains(other)
                || other == paths::parts(path@),
        all_parts(old(files)@).contains(paths::parts(path@)) ==> final(files)@ == old(files)@,
        forall|i: int|
            0 <= i < final(files)@.len() ==> text::texts(old(files)@).contains(
                (#[trigger] final(files)@[i])@,
            ) || final(files)@[i]@ == path@,
{
    let ghost before = all_parts(files@);
    let ghost given = files@;
    let ghost new = paths::parts(path@);
    let mut at: usize = 0;
    while at < files.len()
        invariant
            at <= files@.len(),
            files@ == given,
            before == all_parts(files@),
            new == paths::parts(path@),
            forall|i: int| 0 <= i < at ==> paths::parts_before(#[trigger] before[i], new),
        ensures
            at <= files@.len(),
            files@ == given,
            forall|i: int| 0 <= i < at ==> paths::parts_before(#[trigger] before[i], new),
            at < files@.len() ==> !paths::parts_before(before[at as int], new),
        decreases files@.len() - at,
    {
        if standing(files[at].as_str(), path) != Standing::Before {
            break;
        }
        at += 1;
    }
    proof {
        assert forall|i: int| 0 <= i < given.len() implies text::texts(given).contains(
            (#[trigger] given[i])@,
        ) by {
            assert(text::texts(given)[i] == given[i]@);
        }
    }
    if at < files.len() {
        if standing(files[at].as_str(), path) == Standing::Same {
            assert(before[at as int] == new);
            return;
        }
    }
    files.insert(at, path.to_string());
    proof {
        let after = all_parts(files@);
        assert(after =~= before.insert(at as int, new));
        assert forall|i: int, j: int| 0 <= i < j < after.len() implies paths::parts_before(
            #[trigger] after[i],
            #[trigger] after[j],
        ) by {
            if i == at {
                paths::lemma_parts_total(before[at as int], new);
                if j > at + 1 {
                    paths::lemma_parts_transitive(new, before[at as int], before[j - 1]);
                }
            }
        }
        lemma_contains_insert(before, at as int, new);
        if before.contains(new) {
            let i = choose|i: int| 0 <= i < before.len() && before[i] == new;
            paths::lemma_parts_total(new, new);
            if at < before.len() {
                paths::lemma_parts_total(before[at as int], new);
                if i > at {
                    paths::lemma_parts_transitive(new, before[at as int], before[i]);
                }
            }
        }
        assert forall|i: int| 0 <= i < files@.len() implies text::texts(given).contains(
            (#[trigger] files@[i])@,
        ) || files@[i]@ == path@ by {
            if i < at {
                assert(files@[i] == given[i]);
            } else if i > at {
                assert(files@[i] == given[i - 1]);
            }
        }
    }
}

/// What one more event watches.
proof fn lemma_one_more(events: Seq<CustomPredicateEvent>, n: int)
    requires
        0 <= n < events.len(),
    ensures
        forall|parts: Seq<Seq<char>>| #[trigger]
            file_watched(events.take(n + 1), parts) <==> file_watched(events.take(n), parts)
                || watches_file(events[n], parts),
        forall|name: Seq<char>| #[trigger]
            env_watched(events.take(n + 1), name) <==> env_watched(events.take(n), name)
                || watches_env(events[n], name),
        forall|t: u64| #[trigger]
            time_watched(events.take(n + 1), t) <==> time_watched(events.take(n), t)
                || watches_time(events[n], t),
        forall|path: Seq<char>| #[trigger]
            spelled(events.take(n), path) ==> spelled(events.take(n + 1), path),
{
    let earlier = events.take(n);
    let later = events.take(n + 1);
    assert(later[n] == events[n]);
    assert(forall|i: int| 0 <= i < n ==> #[trigger] earlier[i] == later[i]);
    assert(forall|i: int| 0 <= i < n ==> #[trigger] later[i] == earlier[i]);
    assert forall|parts: Seq<Seq<char>>| #[trigger]
        file_watched(later, parts) <==> file_watched(earlier, parts) || watches_file(
            events[n],
            parts,
        ) by {
        if file_watched(earlier, parts) {
            let i = choose|i: int|
                0 <= i < earlier.len() && watches_file(#[trigger] earlier[i], parts);
            assert(watches_file(later[i], parts));
        }
        if watches_file(events[n], parts) {
            assert(watches_file(later[n], parts));
        }
    }
    assert forall|name: Seq<char>| #[trigger]
        env_watched(later, name) <==> env_watched(earlier, name) || watches_env(
            events[n],
            name,
        ) by {
        if env_watched(earlier, name) {
            let i = choose|i: int|
                0 <= i < earlier.len() && watches_env(#[trigger] earlier[i], name);
            assert(watches_env(later[i], name));
        }
        if watches_env(events[n], name) {
            assert(watches_env(later[n], name));
        }
    }
    assert forall|t: u64| #[trigger]
        time_watched(later, t) <==> time_watched(earlier, t) || watches_time(events[n], t) by {
        if time_watched(earlier, t) {
            let i = choose|i: int|
                0 <= i < earlier.len() && watches_time(#[trigger] earlier[i], t);
            assert(watches_time(later[i], t));
        }
        if watches_time(events[n], t) {
            assert(watches_time(later[n], t));
        }
    }
    assert forall|path: Seq<char>| #[trigger] spelled(earlier, path) implies spelled(
        later,
        path,
    ) by {
        let parts = paths::parts(path);
        let i = choose|i: int|
            0 <= i < earlier.len() && spells_first(earlier, i, path) && #[trigger] watches_file(
                earlier[i],
                parts,
            );
        assert forall|j: int| 0 <= j < i implies !watches_file(#[trigger] later[j], parts) by {
            assert(!watches_file(earlier[j], parts));
        }
        assert(spells_first(later, i, path));
        assert(watches_file(later[i], parts));
    }
}

/// A file that no earlier event watches is spelled as the event that does.
proof fn lemma_new_file(events: Seq<CustomPredicateEvent>, n: int, path: Seq<char>)
    requires
        0 <= n < events.len(),
        events[n] matches CustomPredicateEvent::WatchFile(file) && file@ == path,
        !file_watched(events.take(n), paths::parts(path)),
    ensures
        spelled(events.take(n + 1), path),
{
    let earlier = events.take(n);
    let later = events.take(n + 1);
    let parts = paths::parts(path);
    assert forall|j: int| 0 <= j < n implies !watches_file(#[trigger] later[j], parts) by {
        assert(later[j] == earlier[j]);
    }
    assert(later[n] == events[n]);
    assert(spells_first(later, n, path));
    assert(watches_file(later[n], parts));
}

/// The lifetime that is left when a result may be kept for `ms` milliseconds
/// and no longer.
pub open spec fn soonest(ttl: CacheTtl, ms: u64) -> CacheTtl {
    if ms == 0 {
        CacheTtl::Never
    } else {
        match ttl {
            CacheTtl::Never => CacheTtl::Never,
            CacheTtl::Forever => CacheTtl::For(ms),
            CacheTtl::For(current) => CacheTtl::For(
                if current <= ms {
                    current
                } else {
                    ms
                },
            ),
        }
    }
}

/// The lifetime that is left when a result may be kept for `ms` milliseconds
/// and no longer.
fn sooner(ttl: CacheTtl, ms: u64) -> (left: CacheTtl)
    ensures
        left == soonest(ttl, ms),
{
    if ms == 0 {
        return CacheTtl::Never;
    }
    match ttl {
        CacheTtl::Never => CacheTtl::Never,
        CacheTtl::Forever => CacheTtl::For(ms),
        CacheTtl::For(current) => if current <= ms {
            CacheTtl::For(current)
        } else {
            CacheTtl::For(ms)
        },
    }
}

/// What one more bound leaves of a lifetime.
proof fn lemma_sooner(events: Seq<CustomPredicateEvent>, n: int, ttl: CacheTtl, ms: u64)
    requires
        0 <= n < events.len(),
        events[n] == CustomPredicateEvent::WatchTime(ms),
        allows(events.take(n), ttl),
    ensures
        allows(events.take(n + 1), soonest(ttl, ms)),
{
    lemma_one_more(events, n);
    let earlier = events.take(n);
    let later = events.take(n + 1);
    assert(watches_time(events[n], ms));
    assert(time_watched(later, ms));
    match ttl {
        CacheTtl::Never => {
            assert(time_watched(earlier, 0));
            assert(time_watched(later, 0));
        },
        CacheTtl::For(current) => {
            assert(time_watched(earlier, current));
            assert(time_watched(later, current));
        },
        CacheTtl::Forever => {},
    }
    assert forall|t: u64| #[trigger] time_watched(later, t) implies time_watched(earlier, t) || t
        == ms by {}
    if ms != 0 && ttl != CacheTtl::Never {
        assert(!time_watched(earlier, 0));
        assert(!time_watched(later, 0));
    }
}

/// Events that bound lifetimes alike allow the same one.
proof fn lemma_same_times(
    one: Seq<CustomPredicateEvent>,
    other: Seq<CustomPredicateEvent>,
    ttl: CacheTtl,
)
    requires
        forall|t: u64| #[trigger] time_watched(one, t) <==> time_watched(other, t),
        forall|t: u64| #[trigger] time_watched(other, t) <==> time_watched(one, t),
        allows(one, ttl),
    ensures
        allows(other, ttl),
{
    assert(time_watched(one, 0) <==> time_watched(other, 0));
    if let CacheTtl::For(ms) = ttl {
        assert(time_watched(one, ms) <==> time_watched(other, ms));
    }
}

/// What one more watched file makes of a set.
proof fn lemma_file_added(
    events: Seq<CustomPredicateEvent>,
    n: int,
    was: WatchSet,
    set: WatchSet,
    path: Seq<char>,
)
    requires
        0 <= n < events.len(),
        unites(events.take(n), was),
        events[n] matches CustomPredicateEvent::WatchFile(file) && file@ == path,
        in_path_order(all_parts(set.files@)),
        forall|other: Seq<Seq<char>>| #[trigger]
            all_parts(set.files@).contains(other) <==> all_parts(was.files@).contains(other)
                || other == paths::parts(path),
        all_parts(was.files@).contains(paths::parts(path)) ==> set.files@ == was.files@,
        forall|i: int|
            0 <= i < set.files@.len() ==> text::texts(was.files@).contains(
                (#[trigger] set.files@[i])@,
            ) || set.files@[i]@ == path,
        set.env == was.env,
        set.cache_ttl == was.cache_ttl,
    ensures
        unites(events.take(n + 1), set),
{
    let earlier = events.take(n);
    let later = events.take(n + 1);
    let new = paths::parts(path);
    lemma_one_more(events, n);
    lemma_same_times(earlier, later, set.cache_ttl);
    assert forall|parts: Seq<Seq<char>>| #[trigger]
        all_parts(set.files@).contains(parts) <==> file_watched(later, parts) by {
        assert(all_parts(was.files@).contains(parts) <==> file_watched(earlier, parts));
        assert(watches_file(events[n], parts) <==> parts == new);
    }
    assert forall|i: int| 0 <= i < set.files@.len() implies spelled(
        later,
        (#[trigger] set.files@[i])@,
    ) by {
        let file = set.files@[i]@;
        if all_parts(was.files@).contains(new) {
            assert(set.files@[i] == was.files@[i]);
        } else if text::texts(was.files@).contains(file) {
            let k = choose|k: int|
                0 <= k < text::texts(was.files@).len() && text::texts(was.files@)[k] == file;
            assert(was.files@[k]@ == file);
            assert(spelled(earlier, was.files@[k]@));
        } else {
            assert(!file_watched(earlier, new));
            lemma_new_file(events, n, path);
        }
    }
    assert forall|name: Seq<char>| #[trigger]
        text::texts(set.env@).contains(name) <==> env_watched(later, name) by {
        assert(!watches_env(events[n], name));
    }
}

impl WatchSet {
    /// Union every event from a single predicate execution into one set.
    pub fn from_events(events: &[CustomPredicateEvent]) -> (set: Self)
        ensures
            unites(events@, set),
    {
        let mut set = WatchSet::default();
        let mut i: usize = 0;
        assert(unites(events@.take(0), set));
        while i < events.len()
            invariant
                i <= events@.len(),
                unites(events@.take(i as int), set),
            decreases events@.len() - i,
        {
            let ghost earlier = events@.take(i as int);
            let ghost later = events@.take(i + 1);
            let ghost was = set;
            proof {
                lemma_one_more(events@, i as int);
            }
            match &events[i] {
                CustomPredicateEvent::WatchFile(path) => {
                    add_path(&mut set.files, path.as_str());
                    proof {
                        lemma_file_added(events@, i as int, was, set, path@);
                    }
                },
                CustomPredicateEvent::WatchEnv(name) => {
                    add_text(&mut set.env, name.as_str());
                    proof {
                        lemma_same_times(earlier, later, set.cache_ttl);
                    }
                    assert forall|other: Seq<char>| #[trigger]
                        text::texts(set.env@).contains(other) <==> env_watched(later, other) by {
                        assert(text::texts(was.env@).contains(other) <==> env_watched(
                            earlier,
                            other,
                        ));
                    }
                    assert(unites(later, set));
                },
                CustomPredicateEvent::WatchTime(ms) => {
                    let ms: u64 = *ms;
                    set.cache_ttl = sooner(set.cache_ttl, ms);
                    proof {
                        lemma_sooner(events@, i as int, was.cache_ttl, ms);
                    }
                    assert(unites(later, set));
                },
                CustomPredicateEvent::Other => {
                    proof {
                        lemma_same_times(earlier, later, set.cache_ttl);
                    }
                    assert(unites(later, set));
                },
            }
            i += 1;
        }
        assert(events@.take(i as int) =~= events@);
        set
    }
}

// ── fingerprints ─────────────────────────────────────────────────────

/// When a file was last changed, as the distance to the Unix epoch.
#[derive(Debug, Clone, Copy, PartialEq, Eq, Structural)]
pub enum Modified {
    SinceEpoch { secs: u64, nanos: u32 },
    BeforeEpoch { secs: u64, nanos: u32 },
}

/// What is seen of a file that is there.
#[derive(Debug, Clone, Copy, PartialEq, Eq, Structural)]
pub struct FileStatus {
    pub size: u64,
    /// Absent where the file system keeps no usable time.
    pub modified: Option<Modified>,
}

/// A file's `mtime` in nanoseconds and byte size. Both are `None` when the
/// file is missing so an absent → present transition invalidates the entry,
/// and where its time cannot be used.
#[derive(Debug, Clone, Copy, PartialEq, Eq, Structural)]
pub struct FileFingerprint {
    pub mtime_ns: Option<i128>,
    pub size: Option<u64>,
}

/// A time as nanoseconds from the Unix epoch; earlier times are negative.
pub open spec fn nanoseconds(modified: Modified) -> int {
    match modified {
        Modified::SinceEpoch { secs, nanos } => secs * 1_000_000_000 + nanos,
        Modified::BeforeEpoch { secs, nanos } => -(secs * 1_000_000_000 + nanos),
    }
}

/// Whether what is seen of a file includes a time to go by.
pub open spec fn has_time(status: Option<FileStatus>) -> bool {
    status is Some && status->Some_0.modified is Some
}

/// The fingerprint of a file, given what is seen of it: its time and size, or
/// nothing at all where there is no file or no time to go by.
pub open spec fn fingerprint_of(status: Option<FileStatus>) -> FileFingerprint {
    if has_time(status) {
        FileFingerprint {
            mtime_ns: Some(nanoseconds(status->Some_0.modified->Some_0) as i128),
            size: Some(status->Some_0.size),
        }
    } else {
        FileFingerprint { mtime_ns: None, size: None }
    }
}

/// A time as nanoseconds from the Unix epoch.
fn nanoseconds_of(modified: Modified) -> (ns: i128)
    ensures
        ns == nanoseconds(modified),
{
    match modified {
        Modified::SinceEpoch { secs, nanos } => secs as i128 * 1_000_000_000 + nanos as i128,
        Modified::BeforeEpoch { secs, nanos } => {
            let distance: i128 = secs as i128 * 1_000_000_000 + nanos as i128;
            -distance
        },
    }
}

impl FileFingerprint {
    /// Fingerprint a file, given what is seen of it. Missing files, unreadable
    /// metadata, and metadata without a usable timestamp all resolve to a
    /// deterministic `None`-only state; predicates fail to their conservative
    /// branch when the file transitions to a readable state.
    pub fn of(status: Option<FileStatus>) -> (fingerprint: Self)
        ensures
            fingerprint == fingerprint_of(status),
            status is None || status->Some_0.modified is None ==> fingerprint == (
            FileFingerprint { mtime_ns: None, size: None }),
    {
        match status {
            Some(FileStatus { size, modified: Some(modified) }) => FileFingerprint {
                mtime_ns: Some(nanoseconds_of(modified)),
                size: Some(size),
            },
            _ => FileFingerprint { mtime_ns: None, size: None },
        }
    }
}

impl Default for FileFingerprint {
    fn default() -> (fingerprint: Self)
        ensures
            fingerprint == fingerprint_of(None),
    {
        FileFingerprint { mtime_ns: None, size: None }
    }
}

/// Snapshot of the watched inputs at a point in time. Two snapshots that
/// compare equal mean nothing observable to the cache has changed; how a path
/// is spelled does not matter.
#[derive(Debug, Clone)]
pub struct Fingerprints {
    pub files: Vec<(String, FileFingerprint)>,
    pub env: Vec<(String, Option<String>)>,
}

/// What a snapshot holds: a fingerprint for each file and a value for each
/// variable.
#[verifier::ext_equal]
pub struct FingerprintsView {
    pub files: Seq<(Seq<Seq<char>>, FileFingerprint)>,
    pub env: Seq<(Seq<char>, Option<Seq<char>>)>,
}

/// The fingerprint of each file, under what its path is made of.
pub open spec fn file_views(files: Seq<(String, FileFingerprint)>) -> Seq<
    (Seq<Seq<char>>, FileFingerprint),
> {
    files.map_values(|file: (String, FileFingerprint)| (paths::parts(file.0@), file.1))
}

/// The value of each variable.
pub open spec fn env_views(env: Seq<(String, Option<String>)>) -> Seq<
    (Seq<char>, Option<Seq<char>>),
> {
    env.map_values(|entry: (String, Option<String>)| (entry.0@, text::optional_text(entry.1)))
}

impl View for Fingerprints {
    type V = FingerprintsView;

    open spec fn view(&self) -> FingerprintsView {
        FingerprintsView { files: file_views(self.files@), env: env_views(self.env@) }
    }
}

impl Default for Fingerprints {
    fn default() -> (snapshot: Self)
        ensures
            snapshot@.files.len() == 0,
            snapshot@.env.len() == 0,
    {
        Fingerprints { files: Vec::new(), env: Vec::new() }
    }
}

/// What some optional values hold.
pub open spec fn optional_values(values: Seq<Option<String>>) -> Seq<Option<Seq<char>>> {
    values.map_values(|value: Option<String>| text::optional_text(value))
}

/// The snapshot of a set, given what is seen of each of its inputs.
pub open spec fn snapshot_of(
    set: WatchSet,
    files: Seq<FileFingerprint>,
    env: Seq<Option<Seq<char>>>,
) -> FingerprintsView {
    FingerprintsView {
        files: Seq::new(
            set.files@.len(),
            |i: int| (paths::parts(set.files@[i]@), files[i]),
        ),
        env: Seq::new(set.env@.len(), |i: int| (set.env@[i]@, env[i])),
    }
}

/// Copy an optional value.
fn copy_value(value: &Option<String>) -> (copy: Option<String>)
    ensures
        text::optional_text(copy) == text::optional_text(*value),
{
    match value {
        Some(value) => Some(value.clone()),
        None => None,
    }
}

/// Whether two optional values hold the same.
fn same_value(a: &Option<String>, b: &Option<String>) -> (same: bool)
    ensures
        same == (text::optional_text(*a) == text::optional_text(*b)),
{
    match (a, b) {
        (Some(a), Some(b)) => same_text(a.as_str(), b.as_str()),
        (None, None) => true,
        _ => false,
    }
}

impl Fingerprints {
    /// Capture fingerprints for every input in `set`, given the fingerprint of
    /// each of its files and the value of each of its variables, in their
    /// order. Non-existent files and missing variables are stored as their
    /// "absent" fingerprint so future appearances count as an invalidating
    /// change.
    pub fn capture(
        set: &WatchSet,
        files: &Vec<FileFingerprint>,
        env: &Vec<Option<String>>,
    ) -> (snapshot: Self)
        requires
            files@.len() == set.files@.len(),
            env@.len() == set.env@.len(),
        ensures
            snapshot@ == snapshot_of(*set, files@, optional_values(env@)),
            snapshot.files@.len() == set.files@.len(),
            forall|i: int|
                0 <= i < set.files@.len() ==> (#[trigger] snapshot.files@[i]).0@
                    == set.files@[i]@,
    {
        let ghost whole = snapshot_of(*set, files@, optional_values(env@));
        let mut seen: Vec<(String, FileFingerprint)> = Vec::new();
        let mut i: usize = 0;
        while i < files.len()
            invariant
                i <= files@.len(),
                files@.len() == set.files@.len(),
                whole == snapshot_of(*set, files@, optional_values(env@)),
                file_views(seen@) == whole.files.take(i as int),
                seen@.len() == i,
                forall|j: int| 0 <= j < i ==> (#[trigger] seen@[j]).0@ == set.files@[j]@,
            decreases files@.len() - i,
        {
            let ghost earlier = file_views(seen@);
            seen.push((set.files[i].clone(), files[i]));
            assert(file_views(seen@) =~= earlier.push(whole.files[i as int]));
            i += 1;
        }
        assert(whole.files.take(i as int) =~= whole.files);
        let mut values: Vec<(String, Option<String>)> = Vec::new();
        let mut k: usize = 0;
        while k < env.len()
            invariant
                k <= env@.len(),
                env@.len() == set.env@.len(),
                whole == snapshot_of(*set, files@, optional_values(env@)),
                env_views(values@) == whole.env.take(k as int),
            decreases env@.len() - k,
        {
            let ghost earlier = env_views(values@);
            values.push((set.env[k].clone(), copy_value(&env[k])));
            assert(env_views(values@) =~= earlier.push(whole.env[k as int]));
            k += 1;
        }
        assert(whole.env.take(k as int) =~= whole.env);
        Fingerprints { files: seen, env: values }
    }

    /// Whether two snapshots hold the same, so that nothing observable to the
    /// cache has changed between them.
    pub fn matches(&self, other: &Fingerprints) -> (same: bool)
        ensures
            same == (self@ == other@),
    {
        let ghost ours = self@;
        let ghost theirs = other@;
        if self.files.len() != other.files.len() || self.env.len() != other.env.len() {
            assert(ours.files.len() != theirs.files.len() || ours.env.len() != theirs.env.len());
            return false;
        }
        let mut i: usize = 0;
        while i < self.files.len()
            invariant
                i <= self.files@.len(),
                self.files@.len() == other.files@.len(),
                ours == self@,
                theirs == other@,
                ours.files.take(i as int) == theirs.files.take(i as int),
            decreases self.files@.len() - i,
        {
            let (path, fingerprint) = (&self.files[i].0, self.files[i].1);
            let (watched, seen) = (&other.files[i].0, other.files[i].1);
            assert(ours.files[i as int] == (paths::parts(path@), fingerprint));
            assert(theirs.files[i as int] == (paths::parts(watched@), seen));
            if standing(path.as_str(), watched.as_str()) != Standing::Same || fingerprint != seen {
                return false;
            }
            assert(ours.files.take(i + 1) =~= ours.files.take(i as int).push(
                ours.files[i as int],
            ));
            assert(theirs.files.take(i + 1) =~= theirs.files.take(i as int).push(
                theirs.files[i as int],
            ));
            i += 1;
        }
        assert(ours.files.take(i as int) =~= ours.files);
        assert(theirs.files.take(i as int) =~= theirs.files);
        let mut k: usize = 0;
        while k < self.env.len()
            invariant
                k <= self.env@.len(),
                self.env@.len() == other.env@.len(),
                ours == self@,
                theirs == other@,
                ours.env.take(k as int) == theirs.env.take(k as int),
            decreases self.env@.len() - k,
        {
            let entry = &self.env[k];
            let seen = &other.env[k];
            assert(ours.env[k as int] == (entry.0@, text::optional_text(entry.1)));
            assert(theirs.env[k as int] == (seen.0@, text::optional_text(seen.1)));
            if !same_text(entry.0.as_str(), seen.0.as_str()) || !same_value(&entry.1, &seen.1) {
                return false;
            }
            assert(ours.env.take(k + 1) =~= ours.env.take(k as int).push(ours.env[k as int]));
            assert(theirs.env.take(k + 1) =~= theirs.env.take(k as int).push(
                theirs.env[k as int],
            ));
            k += 1;
        }
        assert(ours.env.take(k as int) =~= ours.env);
        assert(theirs.env.take(k as int) =~= theirs.env);
        true
    }
}

impl PartialEq for Fingerprints {
    fn eq(&self, other: &Self) -> (same: bool) {
        self.matches(other)
    }
}

impl vstd::std_specs::cmp::PartialEqSpecImpl for Fingerprints {
    open spec fn obeys_eq_spec() -> bool {
        true
    }

    open spec fn eq_spec(&self, other: &Self) -> bool {
        self@ == other@
    }
}

impl Eq for Fingerprints {}

// ── laws ─────────────────────────────────────────────────────────────

/// Texts in dictionary order that are the same texts are the same list.
proof fn lemma_text_order_is_unique(a: Seq<Seq<char>>, b: Seq<Seq<char>>)
    requires
        in_text_order(a),
        in_text_order(b),
        forall|name: Seq<char>| #[trigger] a.contains(name) <==> b.contains(name),
    ensures
        a == b,
{
    let precedes = |x: Seq<char>, y: Seq<char>| text::before(x, y);
    assert forall|x: Seq<char>, y: Seq<char>| #[trigger] precedes(x, y) implies !precedes(
        y,
        x,
    ) by {
        text::lemma_before_total(x, y);
    }
    text::lemma_order_is_unique(a, b, precedes);
}

/// Paths in path order that are the same paths are the same list.
proof fn lemma_path_order_is_unique(a: Seq<Seq<Seq<char>>>, b: Seq<Seq<Seq<char>>>)
    requires
        in_path_order(a),
        in_path_order(b),
        forall|parts: Seq<Seq<char>>| #[trigger] a.contains(parts) <==> b.contains(parts),
    ensures
        a == b,
{
    let precedes = |x: Seq<Seq<char>>, y: Seq<Seq<char>>| paths::parts_before(x, y);
    assert forall|x: Seq<Seq<char>>, y: Seq<Seq<char>>| #[trigger]
        precedes(x, y) implies !precedes(y, x) by {
        paths::lemma_parts_total(x, y);
    }
    text::lemma_order_is_unique(a, b, precedes);
}

/// Two lots of events that watch the same things make the same set: neither
/// their order nor how often they are repeated matters.
pub proof fn event_order_does_not_show(
    one: Seq<CustomPredicateEvent>,
    other: Seq<CustomPredicateEvent>,
    a: WatchSet,
    b: WatchSet,
)
    requires
        unites(one, a),
        unites(other, b),
        forall|event: CustomPredicateEvent| #[trigger]
            one.contains(event) <==> other.contains(event),
    ensures
        all_parts(a.files@) == all_parts(b.files@),
        text::texts(a.env@) == text::texts(b.env@),
        a.cache_ttl == b.cache_ttl,
{
    lemma_same_events_watch_alike(one, other);
    lemma_same_events_watch_alike(other, one);
    assert forall|parts: Seq<Seq<char>>| #[trigger]
        all_parts(a.files@).contains(parts) <==> all_parts(b.files@).contains(parts) by {
        assert(all_parts(a.files@).contains(parts) <==> file_watched(one, parts));
        assert(all_parts(b.files@).contains(parts) <==> file_watched(other, parts));
    }
    lemma_path_order_is_unique(all_parts(a.files@), all_parts(b.files@));
    assert forall|name: Seq<char>| #[trigger]
        text::texts(a.env@).contains(name) <==> text::texts(b.env@).contains(name) by {
        assert(text::texts(a.env@).contains(name) <==> env_watched(one, name));
        assert(text::texts(b.env@).contains(name) <==> env_watched(other, name));
    }
    lemma_text_order_is_unique(text::texts(a.env@), text::texts(b.env@));
    lemma_same_times(one, other, a.cache_ttl);
    lemma_one_lifetime(other, a.cache_ttl, b.cache_ttl);
}

/// What is watched by some events is watched by others that hold them all.
proof fn lemma_same_events_watch_alike(
    one: Seq<CustomPredicateEvent>,
    other: Seq<CustomPredicateEvent>,
)
    requires
        forall|event: CustomPredicateEvent| #[trigger]
            one.contains(event) ==> other.contains(event),
    ensures
        forall|parts: Seq<Seq<char>>| #[trigger]
            file_watched(one, parts) ==> file_watched(other, parts),
        forall|name: Seq<char>| #[trigger] env_watched(one, name) ==> env_watched(other, name),
        forall|t: u64| #[trigger] time_watched(one, t) ==> time_watched(other, t),
{
    assert forall|i: int| 0 <= i < one.len() implies exists|k: int|
        0 <= k < other.len() && other[k] == #[trigger] one[i] by {
        assert(one.contains(one[i]));
    }
    assert forall|parts: Seq<Seq<char>>| #[trigger] file_watched(one, parts) implies file_watched(
        other,
        parts,
    ) by {
        let i = choose|i: int| 0 <= i < one.len() && watches_file(#[trigger] one[i], parts);
        let k = choose|k: int| 0 <= k < other.len() && other[k] == one[i];
        assert(watches_file(other[k], parts));
    }
    assert forall|name: Seq<char>| #[trigger] env_watched(one, name) implies env_watched(
        other,
        name,
    ) by {
        let i = choose|i: int| 0 <= i < one.len() && watches_env(#[trigger] one[i], name);
        let k = choose|k: int| 0 <= k < other.len() && other[k] == one[i];
        assert(watches_env(other[k], name));
    }
    assert forall|t: u64| #[trigger] time_watched(one, t) implies time_watched(other, t) by {
        let i = choose|i: int| 0 <= i < one.len() && watches_time(#[trigger] one[i], t);
        let k = choose|k: int| 0 <= k < other.len() && other[k] == one[i];
        assert(watches_time(other[k], t));
    }
}

/// Events allow one lifetime only.
proof fn lemma_one_lifetime(events: Seq<CustomPredicateEvent>, a: CacheTtl, b: CacheTtl)
    requires
        allows(events, a),
        allows(events, b),
    ensures
        a == b,
{
    if let CacheTtl::For(ms) = a {
        assert(time_watched(events, ms));
    }
    if let CacheTtl::For(ms) = b {
        assert(time_watched(events, ms));
    }
}

/// A single `WatchTime(0)` keeps a result from being cached, whatever else is
/// reported.
pub proof fn watching_no_time_forbids_caching(
    events: Seq<CustomPredicateEvent>,
    i: int,
    set: WatchSet,
)
    requires
        unites(events, set),
        0 <= i < events.len(),
        events[i] == CustomPredicateEvent::WatchTime(0),
    ensures
        set.cache_ttl == CacheTtl::Never,
{
    assert(watches_time(events[i], 0));
    assert(time_watched(events, 0));
}

/// Two snapshots of a set hold the same exactly where the same was seen of
/// every input.
pub proof fn snapshots_match_when_nothing_changed(
    set: WatchSet,
    files: Seq<FileFingerprint>,
    env: Seq<Option<Seq<char>>>,
    files_now: Seq<FileFingerprint>,
    env_now: Seq<Option<Seq<char>>>,
)
    requires
        files.len() == set.files@.len(),
        files_now.len() == set.files@.len(),
        env.len() == set.env@.len(),
        env_now.len() == set.env@.len(),
    ensures
        snapshot_of(set, files, env) == snapshot_of(set, files_now, env_now) <==> files
            == files_now && env == env_now,
{
    let before = snapshot_of(set, files, env);
    let now = snapshot_of(set, files_now, env_now);
    if before == now {
        assert forall|i: int| 0 <= i < files.len() implies files[i] == files_now[i] by {
            assert(before.files[i] == now.files[i]);
        }
        assert(files =~= files_now);
        assert forall|i: int| 0 <= i < env.len() implies env[i] == env_now[i] by {
            assert(before.env[i] == now.env[i]);
        }
        assert(env =~= env_now);
    }
}

/// A file whose time can be used changes its fingerprint when it appears,
/// grows, shrinks or is written at another time.
pub proof fn fingerprints_tell_files_apart(a: FileStatus, b: FileStatus)
    ensures
        a.modified is Some ==> fingerprint_of(None) != fingerprint_of(Some(a)),
        a.modified is Some && a.size != b.size ==> fingerprint_of(Some(a)) != fingerprint_of(
            Some(b),
        ),
        a.modified is Some != b.modified is Some ==> fingerprint_of(Some(a)) != fingerprint_of(
            Some(b),
        ),
        a.modified is Some && b.modified is Some && nanoseconds(a.modified->Some_0)
            != nanoseconds(b.modified->Some_0) ==> fingerprint_of(Some(a)) != fingerprint_of(
            Some(b),
        ),
{
}

/// Whether an event names a file by this path.
pub open spec fn names_file(events: Seq<CustomPredicateEvent>, path: Seq<char>) -> bool {
    exists|i: int|
        0 <= i < events.len() && (#[trigger] events[i]) is WatchFile && events[i]->WatchFile_0@
            == path
}

/// Whether an event names a variable.
pub open spec fn names_env(events: Seq<CustomPredicateEvent>, name: Seq<char>) -> bool {
    exists|i: int|
        0 <= i < events.len() && (#[trigger] events[i]) is WatchEnv && events[i]->WatchEnv_0@
            == name
}

/// A set watches exactly what the events name: every file and variable they
/// name, each once and in order, and nothing else.
pub proof fn a_set_watches_what_events_name(events: Seq<CustomPredicateEvent>, set: WatchSet)
    requires
        unites(events, set),
    ensures
        forall|i: int|
            0 <= i < events.len() ==> {
                &&& (#[trigger] events[i]) matches CustomPredicateEvent::WatchFile(path)
                    ==> exists|k: int|
                    0 <= k < set.files@.len() && paths::parts((#[trigger] set.files@[k])@)
                        == paths::parts(path@)
                &&& events[i] matches CustomPredicateEvent::WatchEnv(name) ==> exists|k: int|
                    0 <= k < set.env@.len() && (#[trigger] set.env@[k])@ == name@
            },
        forall|k: int|
            0 <= k < set.files@.len() ==> names_file(events, (#[trigger] set.files@[k])@),
        forall|k: int|
            0 <= k < set.env@.len() ==> names_env(events, (#[trigger] set.env@[k])@),
        forall|j: int, k: int|
            0 <= j < k < set.files@.len() ==> paths::parts_before(
                paths::parts((#[trigger] set.files@[j])@),
                paths::parts((#[trigger] set.files@[k])@),
            ),
        forall|j: int, k: int|
            0 <= j < k < set.env@.len() ==> text::before(
                (#[trigger] set.env@[j])@,
                (#[trigger] set.env@[k])@,
            ),
{
    let files = all_parts(set.files@);
    let env = text::texts(set.env@);
    assert forall|i: int| 0 <= i < events.len() implies ({
        &&& (#[trigger] events[i]) matches CustomPredicateEvent::WatchFile(path) ==> exists|k: int|
            0 <= k < set.files@.len() && paths::parts((#[trigger] set.files@[k])@)
                == paths::parts(path@)
        &&& events[i] matches CustomPredicateEvent::WatchEnv(name) ==> exists|k: int|
            0 <= k < set.env@.len() && (#[trigger] set.env@[k])@ == name@
    }) by {
        if let CustomPredicateEvent::WatchFile(path) = events[i] {
            let parts = paths::parts(path@);
            assert(watches_file(events[i], parts));
            assert(file_watched(events, parts));
            assert(files.contains(parts));
            let k = choose|k: int| 0 <= k < files.len() && files[k] == parts;
            assert(paths::parts(set.files@[k]@) == parts);
        }
        if let CustomPredicateEvent::WatchEnv(name) = events[i] {
            assert(watches_env(events[i], name@));
            assert(env_watched(events, name@));
            assert(env.contains(name@));
            let k = choose|k: int| 0 <= k < env.len() && env[k] == name@;
            assert(set.env@[k]@ == name@);
        }
    }
    assert forall|k: int| 0 <= k < set.files@.len() implies names_file(
        events,
        (#[trigger] set.files@[k])@,
    ) by {
        assert(spelled(events, set.files@[k]@));
        let i = choose|i: int|
            0 <= i < events.len() && spells_first(events, i, set.files@[k]@)
                && #[trigger] watches_file(events[i], paths::parts(set.files@[k]@));
        assert(events[i] is WatchFile && events[i]->WatchFile_0@ == set.files@[k]@);
    }
    assert forall|k: int| 0 <= k < set.env@.len() implies names_env(
        events,
        (#[trigger] set.env@[k])@,
    ) by {
        assert(env[k] == set.env@[k]@);
        assert(env.contains(set.env@[k]@));
        assert(env_watched(events, set.env@[k]@));
        let i = choose|i: int|
            0 <= i < events.len() && watches_env(#[trigger] events[i], set.env@[k]@);
        assert(events[i] is WatchEnv);
    }
    assert forall|j: int, k: int| 0 <= j < k < set.files@.len() implies paths::parts_before(
        paths::parts((#[trigger] set.files@[j])@),
        paths::parts((#[trigger] set.files@[k])@),
    ) by {
        assert(files[j] == paths::parts(set.files@[j]@));
        assert(files[k] == paths::parts(set.files@[k]@));
    }
    assert forall|j: int, k: int| 0 <= j < k < set.env@.len() implies text::before(
        (#[trigger] set.env@[j])@,
        (#[trigger] set.env@[k])@,
    ) by {
        assert(env[j] == set.env@[j]@);
        assert(env[k] == set.env@[k]@);
    }
}

/// A result may be kept for the shortest time any event allows: for ever where
/// none speaks of time, and not at all where one allows none.
pub proof fn the_shortest_time_counts(events: Seq<CustomPredicateEvent>, set: WatchSet)
    requires
        unites(events, set),
    ensures
        set.cache_ttl == CacheTtl::Forever <==> forall|i: int|
            0 <= i < events.len() ==> !((#[trigger] events[i]) is WatchTime),
        set.cache_ttl == CacheTtl::Never <==> exists|i: int|
            0 <= i < events.len() && #[trigger] events[i] == CustomPredicateEvent::WatchTime(0),
        forall|ms: u64|
            set.cache_ttl == CacheTtl::For(ms) ==> {
                &&& ms > 0
                &&& exists|i: int|
                    0 <= i < events.len() && #[trigger] events[i]
                        == CustomPredicateEvent::WatchTime(ms)
                &&& forall|i: int|
                    0 <= i < events.len() && (#[trigger] events[i]) is WatchTime ==> ms
                        <= events[i]->WatchTime_0
            },
{
    assert forall|i: int| 0 <= i < events.len() && (#[trigger] events[i]) is WatchTime implies
        time_watched(events, events[i]->WatchTime_0) by {
        assert(watches_time(events[i], events[i]->WatchTime_0));
    }
    if set.cache_ttl == CacheTtl::Never {
        let i = choose|i: int| 0 <= i < events.len() && watches_time(#[trigger] events[i], 0);
        assert(events[i] == CustomPredicateEvent::WatchTime(0));
    }
    if let CacheTtl::For(ms) = set.cache_ttl {
        assert(time_watched(events, ms));
        let i = choose|i: int| 0 <= i < events.len() && watches_time(#[trigger] events[i], ms);
        assert(events[i] == CustomPredicateEvent::WatchTime(ms));
    }
}

/// A fingerprint holds a file's size and the nanoseconds from the Unix epoch to
/// its time, before it as a negative number; without a usable time it holds
/// nothing.
pub proof fn fingerprints_hold_size_and_time(size: u64, secs: u64, nanos: u32)
    ensures
        fingerprint_of(None) == (FileFingerprint { mtime_ns: None, size: None }),
        fingerprint_of(Some(FileStatus { size, modified: None })) == (FileFingerprint {
            mtime_ns: None,
            size: None,
        }),
        fingerprint_of(
            Some(
                FileStatus { size, modified: Some(Modified::SinceEpoch { secs, nanos }) },
            ),
        ) == (FileFingerprint {
            mtime_ns: Some((secs * 1_000_000_000 + nanos) as i128),
            size: Some(size),
        }),
        fingerprint_of(
            Some(
                FileStatus { size, modified: Some(Modified::BeforeEpoch { secs, nanos }) },
            ),
        ) == (FileFingerprint {
            mtime_ns: Some((-(secs * 1_000_000_000 + nanos)) as i128),
            size: Some(size),
        }),
{
}

/// A snapshot holds what was seen of each input of its set, in order.
pub proof fn a_snapshot_holds_each_input(
    set: WatchSet,
    files: Seq<FileFingerprint>,
    env: Seq<Option<Seq<char>>>,
    i: int,
)
    ensures
        snapshot_of(set, files, env).files.len() == set.files@.len(),
        snapshot_of(set, files, env).env.len() == set.env@.len(),
        0 <= i < set.files@.len() ==> snapshot_of(set, files, env).files[i] == (
            paths::parts(set.files@[i]@),
            files[i],
        ),
        0 <= i < set.env@.len() ==> snapshot_of(set, files, env).env[i] == (
            set.env@[i]@,
            env[i],
        ),
{
}

/// What a set or a snapshot is compared by: all of its files, variables and
/// values, and how long a result may be kept.
pub proof fn comparing_looks_at_everything(
    set: WatchSet,
    other: WatchSet,
    one: Fingerprints,
    two: Fingerprints,
)
    ensures
        set@ == other@ <==> {
            &&& set.cache_ttl == other.cache_ttl
            &&& set.files@.len() == other.files@.len()
            &&& set.env@.len() == other.env@.len()
            &&& forall|i: int|
                0 <= i < set.files@.len() ==> paths::parts((#[trigger] set.files@[i])@)
                    == paths::parts(other.files@[i]@)
            &&& forall|i: int|
                0 <= i < set.env@.len() ==> (#[trigger] set.env@[i])@ == other.env@[i]@
        },
        one@ == two@ <==> {
            &&& one.files@.len() == two.files@.len()
            &&& one.env@.len() == two.env@.len()
            &&& forall|i: int|
                0 <= i < one.files@.len() ==> paths::parts((#[trigger] one.files@[i]).0@)
                    == paths::parts(two.files@[i].0@) && one.files@[i].1 == two.files@[i].1
            &&& forall|i: int|
                0 <= i < one.env@.len() ==> (#[trigger] one.env@[i]).0@ == two.env@[i].0@
                    && text::optional_text(one.env@[i].1) == text::optional_text(two.env@[i].1)
        },
{
    if set@ == other@ {
        assert(set@.files.len() == other@.files.len());
        assert(set@.env.len() == other@.env.len());
        assert forall|i: int| 0 <= i < set.files@.len() implies paths::parts(
            (#[trigger] set.files@[i])@,
        ) == paths::parts(other.files@[i]@) by {
            assert(set@.files[i] == other@.files[i]);
        }
        assert forall|i: int| 0 <= i < set.env@.len() implies (#[trigger] set.env@[i])@
            == other.env@[i]@ by {
            assert(set@.env[i] == other@.env[i]);
        }
    }
    if set.cache_ttl == other.cache_ttl && set.files@.len() == other.files@.len()
        && set.env@.len() == other.env@.len() && (forall|i: int|
        0 <= i < set.files@.len() ==> paths::parts((#[trigger] set.files@[i])@) == paths::parts(
            other.files@[i]@,
        )) && (forall|i: int|
        0 <= i < set.env@.len() ==> (#[trigger] set.env@[i])@ == other.env@[i]@) {
        assert(set@.files =~= other@.files);
        assert(set@.env =~= other@.env);
    }
    if one@ == two@ {
        assert(one@.files.len() == two@.files.len());
        assert(one@.env.len() == two@.env.len());
        assert forall|i: int| 0 <= i < one.files@.len() implies paths::parts(
            (#[trigger] one.files@[i]).0@,
        ) == paths::parts(two.files@[i].0@) && one.files@[i].1 == two.files@[i].1 by {
            assert(one@.files[i] == two@.files[i]);
        }
        assert forall|i: int| 0 <= i < one.env@.len() implies (#[trigger] one.env@[i]).0@
            == two.env@[i].0@ && text::optional_text(one.env@[i].1) == text::optional_text(
            two.env@[i].1,
        ) by {
            assert(one@.env[i] == two@.env[i]);
        }
    }
    if one.files@.len() == two.files@.len() && one.env@.len() == two.env@.len() && (forall|i: int|
        0 <= i < one.files@.len() ==> paths::parts((#[trigger] one.files@[i]).0@) == paths::parts(
            two.files@[i].0@,
        ) && one.files@[i].1 == two.files@[i].1) && (forall|i: int|
        0 <= i < one.env@.len() ==> (#[trigger] one.env@[i]).0@ == two.env@[i].0@
            && text::optional_text(one.env@[i].1) == text::optional_text(two.env@[i].1)) {
        assert(one@.files =~= two@.files);
        assert(one@.env =~= two@.env);
    }
}

/// A file that several events name is kept as the first of them spells it.
pub proof fn the_first_spelling_is_kept(
    events: Seq<CustomPredicateEvent>,
    set: WatchSet,
    i: int,
    path: String,
)
    requires
        unites(events, set),
        0 <= i < events.len(),
        events[i] == CustomPredicateEvent::WatchFile(path),
        forall|j: int|
            0 <= j < i && (#[trigger] events[j]) is WatchFile ==> paths::parts(
                events[j]->WatchFile_0@,
            ) != paths::parts(path@),
    ensures
        exists|k: int| 0 <= k < set.files@.len() && (#[trigger] set.files@[k])@ == path@,
{
    let parts = paths::parts(path@);
    let files = all_parts(set.files@);
    assert(watches_file(events[i], parts));
    assert(file_watched(events, parts));
    assert(files.contains(parts));
    let k = choose|k: int| 0 <= k < files.len() && files[k] == parts;
    let kept = set.files@[k]@;
    assert(paths::parts(kept) == parts);
    assert(spelled(events, kept));
    let first = choose|first: int|
        0 <= first < events.len() && spells_first(events, first, kept) && #[trigger] watches_file(
            events[first],
            paths::parts(kept),
        );
    if first < i {
        assert(events[first] is WatchFile);
    } else if i < first {
        assert(watches_file(events[i], paths::parts(kept)));
    }
    assert(set.files@[k]@ == path@);
}

/// Values that were seen are held one for one.
pub proof fn seen_values_are_held(values: Seq<Option<String>>, i: int)
    ensures
        optional_values(values).len() == values.len(),
        0 <= i < values.len() ==> optional_values(values)[i] == (match values[i] {
            Some(value) => Some(value@),
            None => None,
        }),
{
}

} // verus!

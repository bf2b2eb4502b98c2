//! Skills, and the short names of where they come from.

use vstd::prelude::*;

use crate::plugins::PackageId;
use crate::predicate::PredicateSet;
use crate::text;
use crate::text::chars_of;

verus! {

/// A skill found on disk.
#[derive(Debug, Clone, PartialEq, Eq)]
pub struct Skill {
    /// What the skill calls itself.
    pub name: String,
    pub predicates: PredicateSet,
    /// Where its `SKILL.md` is.
    pub path: String,
}

impl Skill {
    pub fn name(&self) -> (name: &str)
        ensures
            name@ == self.name@,
    {
        self.name.as_str()
    }
}

/// A skill that applies, and the plugin that contributed it.
#[derive(Debug, Clone, PartialEq, Eq)]
pub struct SkillWithGroupContext {
    pub skill: Skill,
    /// The short name of where the skill comes from.
    pub origin_hash: String,
    pub plugin: String,
    pub plugin_id: PackageId,
}

// ── origin hashes ────────────────────────────────────────────────────

/// One step of the 32-bit FNV-1a hash.
pub open spec fn hash_step(hash: u32, c: char) -> u32 {
    ((hash ^ (c as u32)) as nat * 16777619 % 0x1_0000_0000) as u32
}

/// The 32-bit FNV-1a hash of a text, taken character by character.
pub open spec fn hash_of(s: Seq<char>) -> u32
    decreases s.len(),
{
    if s.len() == 0 {
        2166136261
    } else {
        hash_step(hash_of(s.drop_last()), s.last())
    }
}

/// A hexadecimal digit.
pub open spec fn hex_digit(n: u32) -> char {
    if n < 10 {
        (('0' as int) + n) as char
    } else {
        (('a' as int) + (n - 10)) as char
    }
}

/// A number as `n` hexadecimal digits, with zeros in front.
pub open spec fn hex(value: u32, n: nat) -> Seq<char>
    decreases n,
{
    if n == 0 {
        seq![]
    } else {
        hex(value / 16, (n - 1) as nat).push(hex_digit(value % 16))
    }
}

/// The short name of an origin: eight hexadecimal digits.
pub open spec fn origin_name(key: Seq<char>) -> Seq<char> {
    hex(hash_of(key), 8)
}

/// A hexadecimal digit.
fn digit_of(n: u32) -> (c: char)
    requires
        n < 16,
    ensures
        c == hex_digit(n),
{
    if n < 10 {
        (0x30 + n as u8) as char
    } else {
        (0x61 + (n - 10) as u8) as char
    }
}

/// A number as hexadecimal digits.
fn hex_string(value: u32, n: u8) -> (digits: String)
    ensures
        digits@ == hex(value, n as nat),
    decreases n,
{
    if n == 0 {
        let digits = String::new();
        assert(digits@ =~= seq![]);
        return digits;
    }
    let mut digits = hex_string(value / 16, n - 1);
    digits.push(digit_of(value % 16));
    digits
}

/// The short name of where something comes from, to tell things of one name
/// apart.
pub fn hash_origin_key(key: &str) -> (name: String)
    ensures
        name@ == origin_name(key@),
{
    let chars = chars_of(key);
    let mut hash: u32 = 2166136261;
    let mut i: usize = 0;
    assert(hash == hash_of(chars@.take(0)));
    while i < chars.len()
        invariant
            i <= chars@.len(),
            hash == hash_of(chars@.take(i as int)),
        decreases chars@.len() - i,
    {
        assert(chars@.take(i + 1).drop_last() =~= chars@.take(i as int));
        let mixed: u32 = hash ^ (chars[i] as u32);
        hash = ((mixed as u64 * 16777619) % 0x1_0000_0000) as u32;
        i += 1;
    }
    assert(chars@.take(i as int) =~= chars@);
    hex_string(hash, 8)
}

/// Hexadecimal digits are lower-case letters and digits.
pub proof fn lemma_hex(value: u32, n: nat)
    ensures
        hex(value, n).len() == n,
        forall|i: int|
            0 <= i < n ==> text::is_digit(#[trigger] hex(value, n)[i]) || text::is_lowercase(
                hex(value, n)[i],
            ),
    decreases n,
{
    if n > 0 {
        lemma_hex(value / 16, (n - 1) as nat);
        let earlier = hex(value / 16, (n - 1) as nat);
        let digit = hex_digit(value % 16);
        assert(text::is_digit(digit) || text::is_lowercase(digit));
        assert forall|i: int| 0 <= i < n implies text::is_digit(#[trigger] hex(value, n)[i])
            || text::is_lowercase(hex(value, n)[i]) by {
            if i < n - 1 {
                assert(hex(value, n)[i] == earlier[i]);
            }
        }
    }
}

/// The short name of an origin takes every character of it into account, one
/// after the other.
pub proof fn every_character_counts(key: Seq<char>, c: char, value: u32, n: nat)
    ensures
        hash_of(seq![]) == 0x811c9dc5,
        hash_of(key.push(c)) as nat == (hash_of(key) ^ (c as u32)) as nat * 0x0100_0193
            % 0x1_0000_0000,
        origin_name(key) == hex(hash_of(key), 8),
        hex(value, 0).len() == 0,
        hex(value, n + 1) == hex(value / 16, n).push(hex_digit(value % 16)),
        value < 10 ==> hex_digit(value) as u32 == 0x30 + value,
        10 <= value < 16 ==> hex_digit(value) as u32 == 0x61 + (value - 10),
{
    assert(key.push(c).drop_last() =~= key);
}

} // verus!

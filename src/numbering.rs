//! Sort keys of chapter files.
//!
//! The key of a file stem is its bucket, the index of the first ordering rule whose pattern
//! matches the stem (`u32::MAX` when none does), followed by the values of the stem's runs
//! of ASCII digits, left to right. Keys compare lexicographically, a proper prefix first:
//! a stem without digits sorts before the numbered stems of its bucket. A run whose value
//! exceeds `u32::MAX` counts as `u32::MAX`.

use vstd::prelude::*;

use crate::entities::ChapterOrdering;
use crate::error::LibraryError;

verus! {

#[verifier::external_type_specification]
#[verifier::external_body]
pub struct ExRegex(regex::Regex);

#[verifier::external_type_specification]
#[verifier::external_body]
pub struct ExRegexError(regex::Error);

/// Whether `pattern` is accepted by the regex compiler.
pub uninterp spec fn pattern_compiles(pattern: Seq<char>) -> bool;

/// Whether the regex compiled from `pattern` matches somewhere in `text`.
pub uninterp spec fn pattern_matches(pattern: Seq<char>, text: Seq<char>) -> bool;

/// Relies on `regex::Regex::new`: whether a pattern compiles depends on the pattern alone.
#[verifier::external_body]
fn compile_regex(pattern: &str) -> (r: Result<regex::Regex, regex::Error>)
    ensures
        r is Ok <==> pattern_compiles(pattern@),
{
    regex::Regex::new(pattern)
}

/// A chapter ordering's pattern together with the regex compiled from it.
pub struct CompiledOrdering {
    pattern: String,
    re: regex::Regex,
}

impl CompiledOrdering {
    pub closed spec fn pattern_view(&self) -> Seq<char> {
        self.pattern@
    }

    /// Compiles `pattern`, or returns `None` when it is not a valid regex.
    pub fn compile(pattern: &str) -> (r: Option<CompiledOrdering>)
        ensures
            r is Some <==> pattern_compiles(pattern@),
            r matches Some(o) ==> o.pattern_view() == pattern@,
    {
        match compile_regex(pattern) {
            Ok(re) => Some(CompiledOrdering { pattern: pattern.to_owned(), re }),
            Err(_) => None,
        }
    }

    pub fn pattern(&self) -> (r: &String)
        ensures
            r@ == self.pattern_view(),
    {
        &self.pattern
    }
}

/// Relies on `regex::Regex::is_match`, called on the regex that `CompiledOrdering::compile`
/// built from `o.pattern`: the answer depends on that pattern and the text alone.
#[verifier::external_body]
fn ordering_matches(o: &CompiledOrdering, text: &str) -> (r: bool)
    ensures
        r == pattern_matches(o.pattern_view(), text@),
{
    o.re.is_match(text)
}

pub open spec fn is_digit(c: char) -> bool {
    '0' <= c && c <= '9'
}

pub open spec fn digit_value(c: char) -> nat {
    (c as nat - '0' as nat) as nat
}

/// The values of the maximal runs of ASCII digits in `s`, left to right; `cur` is the value
/// of the run that the characters before `s` left open, if any.
pub open spec fn digit_runs_from(s: Seq<char>, cur: Option<nat>) -> Seq<nat>
    decreases s.len(),
{
    if s.len() == 0 {
        match cur {
            Some(v) => seq![v],
            None => Seq::empty(),
        }
    } else if is_digit(s[0]) {
        let v = match cur {
            Some(v) => v,
            None => 0,
        };
        digit_runs_from(s.drop_first(), Some(v * 10 + digit_value(s[0])))
    } else {
        match cur {
            Some(v) => seq![v] + digit_runs_from(s.drop_first(), None),
            None => digit_runs_from(s.drop_first(), None),
        }
    }
}

pub open spec fn digit_runs(s: Seq<char>) -> Seq<nat> {
    digit_runs_from(s, None)
}

/// A run's value as a key element: values past `u32::MAX` count as `u32::MAX`.
pub open spec fn clamp_u32(v: nat) -> u32 {
    if v > u32::MAX {
        u32::MAX
    } else {
        v as u32
    }
}

/// Index of the first pattern, from position `i` on, that matches `text`.
pub open spec fn first_matching(patterns: Seq<Seq<char>>, text: Seq<char>, i: int) -> Option<int>
    decreases patterns.len() - i,
{
    if i >= patterns.len() || i < 0 {
        None
    } else if pattern_matches(patterns[i], text) {
        Some(i)
    } else {
        first_matching(patterns, text, i + 1)
    }
}

/// The leading key element: the index of the first matching ordering, or `u32::MAX` when
/// none matches, so that unordered files sort after every ordered group.
pub open spec fn bucket(patterns: Seq<Seq<char>>, text: Seq<char>) -> u32 {
    match first_matching(patterns, text, 0) {
        Some(i) => i as u32,
        None => u32::MAX,
    }
}

/// The sort key of a file stem: its bucket, then the values of its digit runs.
pub open spec fn sort_key(patterns: Seq<Seq<char>>, text: Seq<char>) -> Seq<u32> {
    seq![bucket(patterns, text)] + digit_runs(text).map_values(|v: nat| clamp_u32(v))
}

pub open spec fn patterns_of(orderings: Seq<CompiledOrdering>) -> Seq<Seq<char>> {
    orderings.map_values(|o: CompiledOrdering| o.pattern_view())
}

/// The last position of a dot in `s`, or -1.
pub open spec fn last_dot(s: Seq<char>) -> int
    decreases s.len(),
{
    if s.len() == 0 {
        -1
    } else if s.last() == '.' {
        s.len() - 1
    } else {
        last_dot(s.drop_last())
    }
}

/// A file name without its extension; a name whose only dot leads it has no extension.
pub open spec fn file_stem(s: Seq<char>) -> Seq<char> {
    if last_dot(s) <= 0 {
        s
    } else {
        s.take(last_dot(s))
    }
}

/// The text after the last dot of a file name, when it has an extension.
pub open spec fn file_extension(s: Seq<char>) -> Option<Seq<char>> {
    if last_dot(s) <= 0 {
        None
    } else {
        Some(s.skip(last_dot(s) + 1))
    }
}

proof fn lemma_last_dot(s: Seq<char>)
    ensures
        -1 <= last_dot(s) < s.len(),
        last_dot(s) >= 0 ==> s[last_dot(s)] == '.',
        forall|m: int| last_dot(s) < m < s.len() ==> s[m] != '.',
    decreases s.len(),
{
    if s.len() > 0 && s.last() != '.' {
        lemma_last_dot(s.drop_last());
        assert forall|m: int| last_dot(s) < m < s.len() implies s[m] != '.' by {
            if m < s.len() - 1 {
                assert(s[m] == s.drop_last()[m]);
            }
        }
    }
}

proof fn lemma_last_dot_at(s: Seq<char>, p: int)
    requires
        -1 <= p < s.len(),
        p >= 0 ==> s[p] == '.',
        forall|m: int| p < m < s.len() ==> s[m] != '.',
    ensures
        last_dot(s) == p,
    decreases s.len(),
{
    if s.len() > 0 && p < s.len() - 1 {
        lemma_last_dot_at(s.drop_last(), p);
    }
}

fn find_last_dot(s: &str) -> (r: Option<usize>)
    ensures
        r matches Some(p) ==> last_dot(s@) == p,
        r is None ==> last_dot(s@) == -1,
{
    let n = s.unicode_len();
    let mut i: usize = n;
    while i > 0
        invariant
            i <= n == s@.len(),
            forall|m: int| i <= m < n ==> s@[m] != '.',
        decreases i,
    {
        if s.get_char(i - 1) == '.' {
            proof {
                lemma_last_dot_at(s@, i - 1);
            }
            return Some(i - 1);
        }
        i = i - 1;
    }
    proof {
        lemma_last_dot_at(s@, -1);
    }
    None
}

/// Splits a file name into its stem and, when it has one, its extension.
pub fn split_file_name(name: &str) -> (r: (String, Option<String>))
    ensures
        r.0@ == file_stem(name@),
        r.1 matches Some(e) ==> file_extension(name@) == Some(e@),
        r.1 is None ==> file_extension(name@) is None,
{
    proof {
        lemma_last_dot(name@);
    }
    match find_last_dot(name) {
        Some(p) if p > 0 => {
            let n = name.unicode_len();
            let stem = name.substring_char(0, p).to_owned();
            let ext = name.substring_char(p + 1, n).to_owned();
            assert(stem@ =~= name@.take(p as int));
            assert(ext@ =~= name@.skip(p + 1));
            (stem, Some(ext))
        },
        _ => (name.to_owned(), None),
    }
}

proof fn lemma_runs_saturate(v: nat, d: nat)
    requires
        d < 10,
    ensures
        clamp_u32(clamp_u32(v) as nat * 10 + d) == clamp_u32(v * 10 + d),
{
}

/// The clamped values of the digit runs of `s`.
pub fn digit_run_values(s: &str) -> (r: Vec<u32>)
    ensures
        r@ == digit_runs(s@).map_values(|v: nat| clamp_u32(v)),
{
    let n = s.unicode_len();
    let mut out: Vec<u32> = Vec::new();
    let mut cur: Option<u32> = None;
    let ghost mut cur_v: Option<nat> = None;
    let mut i: usize = 0;
    assert(s@.skip(0) =~= s@);
    assert(out@ + digit_runs(s@).map_values(|v: nat| clamp_u32(v)) =~= digit_runs(s@).map_values(
        |v: nat| clamp_u32(v),
    ));
    while i < n
        invariant
            n == s@.len(),
            i <= n,
            cur is Some <==> cur_v is Some,
            cur_v matches Some(v) ==> cur == Some(clamp_u32(v)),
            digit_runs(s@).map_values(|v: nat| clamp_u32(v)) == out@ + digit_runs_from(
                s@.skip(i as int),
                cur_v,
            ).map_values(|v: nat| clamp_u32(v)),
        decreases n - i,
    {
        let c = s.get_char(i);
        let ghost rest = s@.skip(i as int);
        assert(rest[0] == c);
        assert(rest.drop_first() =~= s@.skip(i + 1));
        if '0' <= c && c <= '9' {
            let d = (c as u32) - ('0' as u32);
            let base: u32 = match cur {
                Some(v) => v,
                None => 0,
            };
            let next: u32 = if base > (u32::MAX - d) / 10 {
                u32::MAX
            } else {
                base * 10 + d
            };
            proof {
                let bv: nat = match cur_v {
                    Some(v) => v,
                    None => 0,
                };
                lemma_runs_saturate(bv, d as nat);
                cur_v = Some(bv * 10 + digit_value(c));
            }
            cur = Some(next);
        } else {
            match cur {
                Some(v) => {
                    let ghost before = out@;
                    out.push(v);
                    proof {
                        let tail = digit_runs_from(s@.skip(i + 1), None);
                        let cv = cur_v.unwrap();
                        assert((seq![cv] + tail).map_values(|v: nat| clamp_u32(v)) =~= seq![
                            clamp_u32(cv),
                        ] + tail.map_values(|v: nat| clamp_u32(v)));
                        assert(out@ + tail.map_values(|v: nat| clamp_u32(v)) =~= before + (seq![
                            clamp_u32(cv),
                        ] + tail.map_values(|v: nat| clamp_u32(v))));
                    }
                    cur = None;
                    proof {
                        cur_v = None;
                    }
                },
                None => {},
            }
        }
        i = i + 1;
    }
    assert(s@.skip(n as int) =~= Seq::<char>::empty());
    match cur {
        Some(v) => {
            let ghost before = out@;
            out.push(v);
            assert(out@ =~= before + seq![cur_v.unwrap()].map_values(|v: nat| clamp_u32(v)));
        },
        None => {
            assert(out@ =~= out@ + Seq::<nat>::empty().map_values(|v: nat| clamp_u32(v)));
        },
    }
    out
}

/// The bucket of `text`: the index of the first ordering whose pattern matches it, or
/// `u32::MAX`.
pub fn ordering_bucket(text: &str, orderings: &Vec<CompiledOrdering>) -> (r: u32)
    requires
        orderings@.len() < u32::MAX,
    ensures
        r == bucket(patterns_of(orderings@), text@),
{
    let ghost ps = patterns_of(orderings@);
    let mut i: usize = orderings.len();
    let mut r: u32 = u32::MAX;
    while i > 0
        invariant
            i <= orderings@.len() < u32::MAX,
            ps == patterns_of(orderings@),
            r == match first_matching(ps, text@, i as int) {
                Some(k) => k as u32,
                None => u32::MAX,
            },
        decreases i,
    {
        i = i - 1;
        if ordering_matches(&orderings[i], text) {
            r = i as u32;
        }
    }
    r
}

/// The sort key of the chapter file `file_name`: the bucket of its stem, then the values of
/// the digit runs of its stem.
pub fn chapter_number_from_path(file_name: &str, orderings: &Vec<CompiledOrdering>) -> (r: Vec<
    u32,
>)
    requires
        orderings@.len() < u32::MAX,
    ensures
        r@ == sort_key(patterns_of(orderings@), file_stem(file_name@)),
{
    let (stem, _) = split_file_name(file_name);
    let b = ordering_bucket(stem.as_str(), orderings);
    let runs = digit_run_values(stem.as_str());
    let mut key: Vec<u32> = Vec::new();
    key.push(b);
    let mut i: usize = 0;
    while i < runs.len()
        invariant
            i <= runs@.len(),
            key@ == seq![b] + runs@.take(i as int),
        decreases runs@.len() - i,
    {
        key.push(runs[i]);
        assert(runs@.take(i + 1) =~= runs@.take(i as int).push(runs@[i as int]));
        i = i + 1;
    }
    assert(runs@.take(runs@.len() as int) =~= runs@);
    key
}

/// Compiles the patterns of `orderings`, in the given order.
pub fn compile_orderings(orderings: &Vec<ChapterOrdering>) -> (r: Result<
    Vec<CompiledOrdering>,
    LibraryError,
>)
    ensures
        r is Ok <==> forall|i: int|
            0 <= i < orderings@.len() ==> pattern_compiles(#[trigger] orderings@[i].regex@),
        r matches Ok(c) ==> c@.len() == orderings@.len() && forall|i: int|
            0 <= i < orderings@.len() ==> #[trigger] c@[i].pattern_view() == orderings@[i].regex@,
        r matches Err(e) ==> e matches LibraryError::InvalidOrdering { index } && index
            < orderings@.len() && !pattern_compiles(orderings@[index as int].regex@) && forall|
            i: int,
        | 0 <= i < index ==> pattern_compiles(#[trigger] orderings@[i].regex@),
{
    let mut out: Vec<CompiledOrdering> = Vec::new();
    let mut i: usize = 0;
    while i < orderings.len()
        invariant
            i <= orderings@.len(),
            out@.len() == i,
            forall|k: int| 0 <= k < i ==> pattern_compiles(#[trigger] orderings@[k].regex@),
            forall|k: int| 0 <= k < i ==> #[trigger] out@[k].pattern_view() == orderings@[k].regex@,
        decreases orderings@.len() - i,
    {
        match CompiledOrdering::compile(orderings[i].regex.as_str()) {
            Some(c) => out.push(c),
            None => {
                return Err(LibraryError::InvalidOrdering { index: i });
            },
        }
        i = i + 1;
    }
    Ok(out)
}

/// Lexicographic order on keys; a proper prefix sorts first.
pub open spec fn key_le(a: Seq<u32>, b: Seq<u32>) -> bool
    decreases a.len(),
{
    if a.len() == 0 {
        true
    } else if b.len() == 0 {
        false
    } else if a[0] != b[0] {
        a[0] < b[0]
    } else {
        key_le(a.drop_first(), b.drop_first())
    }
}

pub open spec fn key_lt(a: Seq<u32>, b: Seq<u32>) -> bool {
    key_le(a, b) && !key_le(b, a)
}

pub proof fn lemma_key_le_total(a: Seq<u32>, b: Seq<u32>)
    ensures
        key_le(a, b) || key_le(b, a),
    decreases a.len(),
{
    if a.len() > 0 && b.len() > 0 && a[0] == b[0] {
        lemma_key_le_total(a.drop_first(), b.drop_first());
    }
}

pub proof fn lemma_key_le_trans(a: Seq<u32>, b: Seq<u32>, c: Seq<u32>)
    requires
        key_le(a, b),
        key_le(b, c),
    ensures
        key_le(a, c),
    decreases a.len(),
{
    if a.len() > 0 && b.len() > 0 && c.len() > 0 && a[0] == b[0] && b[0] == c[0] {
        lemma_key_le_trans(a.drop_first(), b.drop_first(), c.drop_first());
    }
}

/// Compares two keys in lexicographic order.
pub fn key_less_eq(a: &Vec<u32>, b: &Vec<u32>) -> (r: bool)
    ensures
        r == key_le(a@, b@),
{
    let mut i: usize = 0;
    assert(a@.skip(0) =~= a@);
    assert(b@.skip(0) =~= b@);
    while i < a.len() && i < b.len() && a[i] == b[i]
        invariant
            i <= a@.len(),
            i <= b@.len(),
            key_le(a@, b@) == key_le(a@.skip(i as int), b@.skip(i as int)),
        decreases a@.len() - i,
    {
        assert(a@.skip(i as int).drop_first() =~= a@.skip(i + 1));
        assert(b@.skip(i as int).drop_first() =~= b@.skip(i + 1));
        i = i + 1;
    }
    if i == a.len() {
        true
    } else if i == b.len() {
        false
    } else {
        a[i] < b[i]
    }
}

/// A file whose stem matches the first ordering sorts before every file whose stem matches
/// no ordering, whatever numbers either holds.
pub proof fn lemma_ordered_before_unordered(
    patterns: Seq<Seq<char>>,
    matched: Seq<char>,
    unmatched: Seq<char>,
)
    requires
        patterns.len() > 0,
        pattern_matches(patterns[0], matched),
        forall|i: int| 0 <= i < patterns.len() ==> !pattern_matches(#[trigger] patterns[i], unmatched),
    ensures
        key_lt(sort_key(patterns, matched), sort_key(patterns, unmatched)),
{
    assert(first_matching(patterns, unmatched, 0) is None) by {
        lemma_no_match(patterns, unmatched, 0);
    }
}

proof fn lemma_no_match(patterns: Seq<Seq<char>>, text: Seq<char>, i: int)
    requires
        0 <= i,
        forall|k: int| 0 <= k < patterns.len() ==> !pattern_matches(#[trigger] patterns[k], text),
    ensures
        first_matching(patterns, text, i) is None,
    decreases patterns.len() - i,
{
    if i < patterns.len() {
        lemma_no_match(patterns, text, i + 1);
    }
}

} // verus!

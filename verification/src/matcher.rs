//! Pattern matching over byte data.
//!
//! A pattern file holds one regular expression per line; blank lines and
//! `#` comments are ignored, and an `id:/regex/flags` shorthand is
//! stripped to the inner regex body.  The compiled set answers whether
//! any pattern matches a byte string.

use vstd::prelude::*;

verus! {

/// Error of the matcher: the pattern set cannot be compiled.
#[derive(Debug, Clone, Copy, PartialEq, Eq, Structural)]
pub enum MatcherError {
    BadPatterns,
}

/// The patterns a compiled regex set was built from.
pub uninterp spec fn regex_patterns(db: regex::bytes::RegexSet) -> Seq<Seq<u8>>;

/// Whether a pattern list compiles into a set: every pattern is valid
/// UTF-8 and a valid regular expression.  A function of the patterns
/// alone.
pub uninterp spec fn regex_set_ok(patterns: Seq<Seq<u8>>) -> bool;

/// Whether any of the patterns matches the data; a function of the
/// patterns and the data alone.
pub uninterp spec fn regex_any_match(patterns: Seq<Seq<u8>>, data: Seq<u8>) -> bool;

#[verifier::external_type_specification]
#[verifier::external_body]
pub struct ExRegexSet(regex::bytes::RegexSet);

/// Relies on regex::bytes::RegexSet::new: compilation succeeds exactly
/// when every pattern is valid UTF-8 and a valid regular expression —
/// a function of the patterns alone — and the compiled set then holds
/// exactly the given patterns.
#[verifier::external_body]
fn regex_set_new(rules: &Vec<Vec<u8>>) -> (r: Result<regex::bytes::RegexSet, MatcherError>)
    ensures
        r is Ok <==> regex_set_ok(rules@.map_values(|v: Vec<u8>| v@)),
        r is Ok ==> regex_patterns(r.unwrap()) == rules@.map_values(|v: Vec<u8>| v@),
{
    let texts: Result<Vec<&str>, core::str::Utf8Error> = rules.iter().map(
        |rule| core::str::from_utf8(rule),
    ).collect();
    match texts {
        Ok(texts) => match regex::bytes::RegexSet::new(texts) {
            Ok(db) => Ok(db),
            Err(_) => Err(MatcherError::BadPatterns),
        },
        Err(_) => Err(MatcherError::BadPatterns),
    }
}

/// Relies on regex::bytes::RegexSet::is_match: whether any pattern of the
/// set matches the data.
#[verifier::external_body]
fn regex_set_is_match(db: &regex::bytes::RegexSet, data: &[u8]) -> (r: bool)
    ensures
        r == regex_any_match(regex_patterns(*db), data@),
{
    db.is_match(data)
}

/// An ASCII whitespace byte.
pub open spec fn is_space(b: u8) -> bool {
    b == 32 || b == 9 || b == 10 || b == 13 || b == 11 || b == 12
}

/// How many leading whitespace bytes the line has.
pub open spec fn spec_trim_start(s: Seq<u8>) -> int
    decreases s.len(),
{
    if s.len() == 0 || !is_space(s[0]) {
        0
    } else {
        1 + spec_trim_start(s.drop_first())
    }
}

/// The length of the line once trailing whitespace is dropped.
pub open spec fn spec_trim_end(s: Seq<u8>) -> int
    decreases s.len(),
{
    if s.len() == 0 || !is_space(s.last()) {
        s.len() as int
    } else {
        spec_trim_end(s.drop_last())
    }
}

/// The line with leading and trailing whitespace dropped.
pub open spec fn spec_trim(s: Seq<u8>) -> Seq<u8> {
    let t = s.skip(spec_trim_start(s));
    t.take(spec_trim_end(t))
}

/// The position of the first occurrence of the byte, or the length.
pub open spec fn spec_find(s: Seq<u8>, b: u8) -> int
    decreases s.len(),
{
    if s.len() == 0 {
        0
    } else if s[0] == b {
        0
    } else {
        1 + spec_find(s.drop_first(), b)
    }
}

/// The position of the first `:/` in the line, or the length.
pub open spec fn spec_find_shorthand(s: Seq<u8>) -> int
    decreases s.len(),
{
    if s.len() < 2 {
        s.len() as int
    } else if s[0] == 58 && s[1] == 47 {
        0
    } else {
        1 + spec_find_shorthand(s.drop_first())
    }
}

/// The position of the last `/` in the line, or `-1`.
pub open spec fn spec_rfind_slash(s: Seq<u8>) -> int
    decreases s.len(),
{
    if s.len() == 0 {
        -1
    } else if s.last() == 47 {
        s.len() - 1
    } else {
        spec_rfind_slash(s.drop_last())
    }
}

/// The rule a trimmed, non-empty, non-comment line yields: the part after
/// an `id:` prefix, with a surrounding pair of slashes stripped.
pub open spec fn spec_rule_of(t: Seq<u8>) -> Seq<u8> {
    let f = spec_find_shorthand(t);
    let e = if f < t.len() {
        t.skip(f + 1)
    } else {
        t
    };
    let r = spec_rfind_slash(e);
    if e.len() > 0 && e[0] == 47 && r > 0 {
        e.subrange(1, r)
    } else {
        e
    }
}

/// The first position of the byte is within the sequence's bounds.
pub proof fn lemma_find_bounds(s: Seq<u8>, b: u8)
    ensures
        0 <= spec_find(s, b) <= s.len(),
    decreases s.len(),
{
    if s.len() > 0 && s[0] != b {
        lemma_find_bounds(s.drop_first(), b);
    }
}

#[via_fn]
proof fn spec_rules_from_decreases(s: Seq<u8>, i: int) {
    if 0 <= i < s.len() {
        lemma_find_bounds(s.skip(i), 10);
    }
}

/// The rules of the pattern text from the given position on: one rule per
/// line, comments and blank lines skipped.
pub open spec fn spec_rules_from(s: Seq<u8>, i: int) -> Seq<Seq<u8>>
    decreases s.len() - i via spec_rules_from_decreases
{
    if i < 0 || i >= s.len() {
        Seq::empty()
    } else {
        let e = i + spec_find(s.skip(i), 10);
        let t = spec_trim(s.subrange(i, e));
        let rest = if e < s.len() {
            spec_rules_from(s, e + 1)
        } else {
            Seq::empty()
        };
        if t.len() == 0 || t[0] == 35 {
            rest
        } else {
            seq![spec_rule_of(t)] + rest
        }
    }
}

/// The rules of a whole pattern text.
pub open spec fn spec_trim_to_rules(s: Seq<u8>) -> Seq<Seq<u8>> {
    spec_rules_from(s, 0)
}

/// The position of the first occurrence of the byte at or after `from`.
pub(crate) fn find_byte(s: &[u8], b: u8, from: usize) -> (r: usize)
    requires
        from <= s@.len(),
    ensures
        r == from + spec_find(s@.skip(from as int), b),
        from <= r <= s@.len(),
        r < s@.len() ==> s@[r as int] == b,
        forall|j: int| from <= j < r ==> s@[j] != b,
{
    let n = s.len();
    let mut i = from;
    while i < n
        invariant
            from <= i <= n,
            n == s@.len(),
            spec_find(s@.skip(from as int), b) == (i - from) + spec_find(s@.skip(i as int), b),
            forall|j: int| from <= j < i ==> s@[j] != b,
        decreases n - i,
    {
        if s[i] == b {
            proof {
                assert(s@.skip(i as int)[0] == s@[i as int]);
            }
            return i;
        }
        proof {
            assert(s@.skip(i as int)[0] == s@[i as int]);
            assert(s@.skip(i as int).drop_first() =~= s@.skip(i as int + 1));
        }
        i += 1;
    }
    proof {
        assert(s@.skip(n as int) =~= Seq::<u8>::empty());
    }
    n
}

/// Whether the byte is ASCII whitespace.
fn byte_is_space(b: u8) -> (r: bool)
    ensures
        r == is_space(b),
{
    b == 32 || b == 9 || b == 10 || b == 13 || b == 11 || b == 12
}

/// The line between `from` and `to` with surrounding whitespace dropped.
fn trim_range(s: &[u8], from: usize, to: usize) -> (r: Vec<u8>)
    requires
        from <= to <= s@.len(),
    ensures
        r@ == spec_trim(s@.subrange(from as int, to as int)),
{
    let ghost line = s@.subrange(from as int, to as int);
    let mut a = from;
    proof {
        assert(line.skip(0) =~= line);
    }
    while a < to && byte_is_space(s[a])
        invariant
            from <= a <= to <= s@.len(),
            line == s@.subrange(from as int, to as int),
            spec_trim_start(line) == (a - from) + spec_trim_start(line.skip(a - from)),
        decreases to - a,
    {
        proof {
            assert(line.skip(a - from)[0] == s@[a as int]);
            assert(line.skip(a - from).drop_first() =~= line.skip(a - from + 1));
        }
        a += 1;
    }
    proof {
        if a < to {
            assert(line.skip(a - from)[0] == s@[a as int]);
            assert(spec_trim_start(line.skip(a - from)) == 0);
        } else {
            assert(line.skip(a - from) =~= Seq::<u8>::empty());
        }
        assert(spec_trim_start(line) == a - from);
    }
    let ghost tail = line.skip(a - from);
    let mut b = to;
    proof {
        assert(tail.take(b - a) =~= tail);
    }
    while b > a && byte_is_space(s[b - 1])
        invariant
            from <= a <= b <= to,
            to <= s@.len(),
            line == s@.subrange(from as int, to as int),
            tail == line.skip(a - from),
            a - from == spec_trim_start(line),
            spec_trim_end(tail) == spec_trim_end(tail.take(b - a)),
        decreases b - a,
    {
        proof {
            assert(tail.take(b - a).last() == s@[b - 1]);
            assert(tail.take(b - a).drop_last() =~= tail.take(b - a - 1));
        }
        b -= 1;
    }
    proof {
        if b > a {
            assert(tail.take(b - a).last() == s@[b - 1]);
            assert(spec_trim_end(tail.take(b - a)) == b - a);
        } else {
            assert(tail.take(b - a) =~= Seq::<u8>::empty());
        }
        assert(spec_trim_end(tail) == b - a);
    }
    let r = vstd::slice::slice_to_vec(&s[a..b]);
    proof {
        assert(r@ =~= tail.take(spec_trim_end(tail)));
    }
    r
}

/// The position of the first `:/` of the line, or its length.
fn find_shorthand(t: &Vec<u8>) -> (r: usize)
    ensures
        r == spec_find_shorthand(t@),
        r <= t@.len(),
{
    let n = t.len();
    if n < 2 {
        proof {
            assert(spec_find_shorthand(t@) == n);
        }
        return n;
    }
    let mut i: usize = 0;
    proof {
        assert(t@.skip(0) =~= t@);
    }
    while i + 1 < n
        invariant
            0 <= i,
            i + 1 <= n,
            n == t@.len(),
            spec_find_shorthand(t@) == i + spec_find_shorthand(t@.skip(i as int)),
        decreases n - i,
    {
        if t[i] == 58 && t[i + 1] == 47 {
            proof {
                assert(t@.skip(i as int)[0] == t@[i as int]);
                assert(t@.skip(i as int)[1] == t@[i as int + 1]);
            }
            return i;
        }
        proof {
            assert(t@.skip(i as int)[0] == t@[i as int]);
            assert(t@.skip(i as int)[1] == t@[i as int + 1]);
            assert(t@.skip(i as int).drop_first() =~= t@.skip(i as int + 1));
        }
        i += 1;
    }
    proof {
        assert(t@.skip(i as int).len() < 2);
        assert(spec_find_shorthand(t@.skip(i as int)) == t@.skip(i as int).len());
    }
    n
}

/// The position after the last `/` of the line, or zero when there is
/// none.
fn rfind_slash(e: &Vec<u8>) -> (r: Option<usize>)
    ensures
        match r {
            Some(j) => j == spec_rfind_slash(e@) && j < e@.len(),
            None => spec_rfind_slash(e@) == -1,
        },
{
    let mut b = e.len();
    proof {
        assert(e@.take(e@.len() as int) =~= e@);
    }
    while b > 0
        invariant
            0 <= b <= e@.len(),
            spec_rfind_slash(e@) == spec_rfind_slash(e@.take(b as int)),
        decreases b,
    {
        if e[b - 1] == 47 {
            proof {
                assert(e@.take(b as int).last() == e@[b - 1]);
            }
            return Some(b - 1);
        }
        proof {
            assert(e@.take(b as int).last() == e@[b - 1]);
            assert(e@.take(b as int).drop_last() =~= e@.take(b as int - 1));
        }
        b -= 1;
    }
    proof {
        assert(e@.take(0) =~= Seq::<u8>::empty());
    }
    None
}

/// Extracts the regular expressions of a pattern text: one per line,
/// blank lines and `#` comments skipped, an `id:` prefix and a pair of
/// surrounding slashes stripped.
pub fn trim_to_rules(s: &[u8]) -> (r: Vec<Vec<u8>>)
    ensures
        r@.map_values(|v: Vec<u8>| v@) == spec_trim_to_rules(s@),
{
    let n = s.len();
    let mut rules: Vec<Vec<u8>> = Vec::new();
    let mut i: usize = 0;
    proof {
        assert(rules@.map_values(|v: Vec<u8>| v@) =~= Seq::<Seq<u8>>::empty());
    }
    while i < n
        invariant
            0 <= i <= n + 1,
            n == s@.len(),
            spec_trim_to_rules(s@) == rules@.map_values(|v: Vec<u8>| v@) + spec_rules_from(
                s@,
                i as int,
            ),
        decreases n + 1 - i,
    {
        let ghost pre_rules = rules@.map_values(|v: Vec<u8>| v@);
        let e = find_byte(s, 10, i);
        let t = trim_range(s, i, e);
        proof {
            assert(s@.subrange(i as int, e as int) =~= s@.subrange(
                i as int,
                i + spec_find(s@.skip(i as int), 10),
            ));
        }
        if t.len() > 0 && t[0] != 35 {
            let ghost tv = t@;
            let f = find_shorthand(&t);
            let expr: Vec<u8> = if f < t.len() {
                vstd::slice::slice_to_vec(&t.as_slice()[f + 1..t.len()])
            } else {
                t
            };
            proof {
                if f < tv.len() {
                    assert(expr@ =~= tv.skip(f as int + 1));
                } else {
                    assert(expr@ == tv);
                }
            }
            let rule: Vec<u8> = match rfind_slash(&expr) {
                Some(j) if j > 0 && expr[0] == 47 => {
                    let ghost ev = expr@;
                    let stripped = vstd::slice::slice_to_vec(&expr.as_slice()[1..j]);
                    proof {
                        assert(stripped@ =~= ev.subrange(1, j as int));
                    }
                    stripped
                },
                _ => expr,
            };
            proof {
                assert(rule@ == spec_rule_of(tv));
            }
            rules.push(rule);
            proof {
                assert(rules@.map_values(|v: Vec<u8>| v@) =~= pre_rules + seq![spec_rule_of(tv)]);
                assert(pre_rules + (seq![spec_rule_of(tv)] + spec_rules_from(s@, e as int + 1))
                    =~= (pre_rules + seq![spec_rule_of(tv)]) + spec_rules_from(s@, e as int + 1));
            }
        }
        i = if e < n {
            e + 1
        } else {
            n
        };
    }
    proof {
        assert(spec_rules_from(s@, i as int) =~= Seq::<Seq<u8>>::empty());
        assert(rules@.map_values(|v: Vec<u8>| v@) + Seq::<Seq<u8>>::empty() =~= rules@.map_values(
            |v: Vec<u8>| v@,
        ));
    }
    rules
}

/// A compiled set of patterns.
pub struct Matcher {
    db: regex::bytes::RegexSet,
}

impl Matcher {
    /// The patterns the matcher was built from, for contracts.
    pub closed spec fn spec_patterns(&self) -> Seq<Seq<u8>> {
        regex_patterns(self.db)
    }

    /// Builds a matcher from the bytes of a pattern text.  Fails exactly
    /// when the extracted pattern set does not compile.
    pub fn from_read(data: &[u8]) -> (r: Result<Matcher, MatcherError>)
        ensures
            r is Ok <==> regex_set_ok(spec_trim_to_rules(data@)),
            r is Ok ==> r.unwrap().spec_patterns() == spec_trim_to_rules(data@),
    {
        let rules = trim_to_rules(data);
        match regex_set_new(&rules) {
            Ok(db) => Ok(Matcher { db }),
            Err(e) => Err(e),
        }
    }

    /// Whether any pattern matches the data.
    pub fn scan(&mut self, data: &[u8]) -> (r: Result<bool, MatcherError>)
        ensures
            r == Ok::<bool, MatcherError>(
                regex_any_match(old(self).spec_patterns(), data@),
            ),
            final (self).spec_patterns() == old(self).spec_patterns(),
    {
        Ok(regex_set_is_match(&self.db, data))
    }
}

} // verus!

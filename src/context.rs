//! Picking the rule for the active context: the first rule whose regular
//! expression matches the context's name decides.
use crate::config::Context;
use regex::Regex;
use vstd::prelude::*;

verus! {

#[verifier::external_type_specification]
#[verifier::external_body]
pub struct ExRegex(Regex);

#[verifier::external_type_specification]
#[verifier::external_body]
pub struct ExRegexError(regex::Error);

/// `regex::Regex::new` accepts the pattern.
pub uninterp spec fn regex_compiles(pattern: Seq<char>) -> bool;

/// `regex::Regex::is_match` of the regex compiled from `pattern` finds a
/// match somewhere in `text`.
pub uninterp spec fn regex_matches(pattern: Seq<char>, text: Seq<char>) -> bool;

/// A compiled context-name pattern, with the text it was compiled from.
pub struct NamePattern {
    re: Regex,
    source: String,
}

impl NamePattern {
    pub closed spec fn source(&self) -> Seq<char> {
        self.source@
    }
}

/// Relies on `regex::Regex::new`: whether a pattern compiles depends on
/// the pattern alone.
#[verifier::external_body]
fn compile(pattern: &str) -> (r: Result<NamePattern, regex::Error>)
    ensures
        r is Ok <==> regex_compiles(pattern@),
        r matches Ok(p) ==> p.source() == pattern@,
{
    match Regex::new(pattern) {
        Ok(re) => Ok(NamePattern { re, source: pattern.to_string() }),
        Err(e) => Err(e),
    }
}

/// Relies on `regex::Regex::is_match`: the answer depends on the pattern
/// compiled and the text alone.
#[verifier::external_body]
fn name_matches(p: &NamePattern, text: &str) -> (r: bool)
    ensures
        r == regex_matches(p.source(), text@),
{
    p.re.is_match(text)
}

#[derive(Clone, Copy, Debug, PartialEq, Eq, Structural)]
pub enum ResolveError {
    /// A rule tried before the first match does not compile as a regular
    /// expression.
    InvalidPattern,
}

/// The address text of a rule, if it has one.
pub open spec fn address_of(rule: Context) -> Option<Seq<char>> {
    match rule.address {
        Some(a) => Some(a@),
        None => None,
    }
}

/// What the rules decide for the context named `ctx`: the address of the
/// first rule whose pattern matches; nothing when no rule matches; an
/// error when a pattern tried before that does not compile.
pub open spec fn resolution(rules: Seq<Context>, ctx: Seq<char>) -> Result<
    Option<Seq<char>>,
    ResolveError,
>
    decreases rules.len(),
{
    if rules.len() == 0 {
        Ok(None)
    } else if !regex_compiles(rules[0].name@) {
        Err(ResolveError::InvalidPattern)
    } else if regex_matches(rules[0].name@, ctx) {
        Ok(address_of(rules[0]))
    } else {
        resolution(rules.drop_first(), ctx)
    }
}

/// The address of the first rule whose pattern matches `current_context`
/// (`None` when that rule has none, or no rule matches).
pub fn resolve_context(rules: &Vec<Context>, current_context: &str) -> (r: Result<
    Option<String>,
    ResolveError,
>)
    ensures
        match r {
            Ok(Some(a)) => resolution(rules@, current_context@) == Ok::<
                Option<Seq<char>>,
                ResolveError,
            >(Some(a@)),
            Ok(None) => resolution(rules@, current_context@) == Ok::<
                Option<Seq<char>>,
                ResolveError,
            >(None),
            Err(e) => resolution(rules@, current_context@) == Err::<Option<Seq<char>>, ResolveError>(
                e,
            ),
        },
{
    let n = rules.len();
    let mut i: usize = 0;
    assert(rules@.skip(0) =~= rules@);
    while i < n
        invariant
            n == rules@.len(),
            0 <= i <= n,
            resolution(rules@, current_context@) == resolution(rules@.skip(i as int), current_context@),
        decreases n - i,
    {
        let rule = &rules[i];
        assert(rules@.skip(i as int).drop_first() =~= rules@.skip(i + 1));
        assert(rules@.skip(i as int)[0] == *rule);
        match compile(rule.name.as_str()) {
            Err(_) => {
                return Err(ResolveError::InvalidPattern);
            },
            Ok(p) => {
                if name_matches(&p, current_context) {
                    return match &rule.address {
                        Some(a) => Ok(Some(a.clone())),
                        None => Ok(None),
                    };
                }
            },
        }
        i = i + 1;
    }
    assert(rules@.skip(n as int).len() == 0);
    Ok(None)
}

/// Rules are tried in order: when rule `i` matches and every rule before
/// it compiles and does not match, rule `i` decides, whatever later rules
/// would say.
pub proof fn lemma_first_match_wins(rules: Seq<Context>, ctx: Seq<char>, i: int)
    requires
        0 <= i < rules.len(),
        regex_compiles(rules[i].name@),
        regex_matches(rules[i].name@, ctx),
        forall|j: int|
            0 <= j < i ==> regex_compiles(#[trigger] rules[j].name@) && !regex_matches(
                rules[j].name@,
                ctx,
            ),
    ensures
        resolution(rules, ctx) == Ok::<Option<Seq<char>>, ResolveError>(address_of(rules[i])),
    decreases i,
{
    if i > 0 {
        assert(regex_compiles(rules[0].name@));
        let rest = rules.drop_first();
        assert forall|j: int| 0 <= j < i - 1 implies regex_compiles(#[trigger] rest[j].name@)
            && !regex_matches(rest[j].name@, ctx) by {
            assert(rest[j] == rules[j + 1]);
        }
        lemma_first_match_wins(rest, ctx, i - 1);
    }
}

/// When every rule compiles and none matches, the context gets no
/// address: its commands run directly.
pub proof fn lemma_no_match_no_proxy(rules: Seq<Context>, ctx: Seq<char>)
    requires
        forall|j: int|
            0 <= j < rules.len() ==> regex_compiles(#[trigger] rules[j].name@) && !regex_matches(
                rules[j].name@,
                ctx,
            ),
    ensures
        resolution(rules, ctx) == Ok::<Option<Seq<char>>, ResolveError>(None),
    decreases rules.len(),
{
    if rules.len() > 0 {
        assert(regex_compiles(rules[0].name@));
        let rest = rules.drop_first();
        assert forall|j: int| 0 <= j < rest.len() implies regex_compiles(#[trigger] rest[j].name@)
            && !regex_matches(rest[j].name@, ctx) by {
            assert(rest[j] == rules[j + 1]);
        }
        lemma_no_match_no_proxy(rest, ctx);
    }
}

} // verus!

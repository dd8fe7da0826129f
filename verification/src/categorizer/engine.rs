//! The categorizer's two operations: applying rules, and deriving them.
use vstd::prelude::*;

use crate::categorizer::model::{
    CategorizeRequest, CategorizeResponse, CategoryRule, DeriveInput, DeriveRulesRequest,
    DeriveRulesResponse, MapOutput,
};
use crate::categorizer::tokens::{has_token, is_piece, listed, tokenize};
use crate::error::XfingineError;
use crate::text::{
    byte_len, chars_less, chars_lt, chars_of, contains_chars, has_substring, occurs_at,
    lemma_chars_lt_irreflexive, lemma_chars_lt_total, lemma_chars_lt_transitive, lowercase,
    to_lowercase, utf8_len,
};

verus! {

/// Rule `rule` matches `narration`: the lowercased pattern occurs in the
/// lowercased narration.
pub open spec fn rule_matches(narration: Seq<char>, rule: CategoryRule) -> bool {
    has_substring(lowercase(narration), lowercase(rule.pattern@))
}

/// Rule `j` is the first of `rules` that matches `narration`.
pub open spec fn first_match(narration: Seq<char>, rules: Seq<CategoryRule>, j: int) -> bool {
    &&& 0 <= j < rules.len()
    &&& rule_matches(narration, rules[j])
    &&& forall|k: int| 0 <= k < j ==> !rule_matches(narration, #[trigger] rules[k])
}

/// What categorizing `narration` with `rules` gives: the category and merchant
/// of the first matching rule, or nothing when no rule matches.
pub open spec fn categorized_as(
    narration: Seq<char>,
    rules: Seq<CategoryRule>,
    out: Option<MapOutput>,
) -> bool {
    match out {
        None => forall|k: int| 0 <= k < rules.len() ==> !rule_matches(narration, #[trigger] rules[k]),
        Some(o) => exists|j: int|
            #![trigger rules[j]]
            first_match(narration, rules, j) && o.category@ == rules[j].category@
                && o.merchant@ == rules[j].merchant@,
    }
}

/// Applies configured rules to categorize raw transactions.
///
/// Each transaction gets the category and merchant of the first rule whose
/// pattern occurs in its narration, both compared in lowercase; a transaction
/// that no rule matches gets `None`. The result is positional and never an
/// error.
pub fn categorize_transactions(req: &CategorizeRequest) -> (r: Result<
    CategorizeResponse,
    XfingineError,
>)
    ensures
        r is Ok,
        r->Ok_0.data@.len() == req.data@.len(),
        forall|i: int|
            0 <= i < req.data@.len() ==> categorized_as(
                req.data@[i].narration@,
                req.rules@,
                #[trigger] r->Ok_0.data@[i],
            ),
{
    let mut patterns: Vec<Vec<char>> = Vec::with_capacity(req.rules.len());
    for j in 0..req.rules.len()
        invariant
            patterns@.len() == j,
            forall|k: int| 0 <= k < j ==> #[trigger] patterns@[k]@ == lowercase(req.rules@[k].pattern@),
    {
        let lowered = to_lowercase(req.rules[j].pattern.as_str());
        patterns.push(chars_of(lowered.as_str()));
    }

    let mut mapped: Vec<Option<MapOutput>> = Vec::with_capacity(req.data.len());
    for i in 0..req.data.len()
        invariant
            patterns@.len() == req.rules@.len(),
            forall|k: int| 0 <= k < patterns@.len() ==> #[trigger] patterns@[k]@ == lowercase(req.rules@[k].pattern@),
            mapped@.len() == i,
            forall|m: int|
                0 <= m < i ==> categorized_as(req.data@[m].narration@, req.rules@, #[trigger] mapped@[m]),
    {
        let lowered = to_lowercase(req.data[i].narration.as_str());
        let narration = chars_of(lowered.as_str());
        let mut found: Option<usize> = None;
        for j in 0..patterns.len()
            invariant_except_break
                found is None,
                forall|k: int| 0 <= k < j ==> !rule_matches(req.data@[i as int].narration@, #[trigger] req.rules@[k]),
            invariant
                patterns@.len() == req.rules@.len(),
                forall|k: int| 0 <= k < patterns@.len() ==> #[trigger] patterns@[k]@ == lowercase(req.rules@[k].pattern@),
                narration@ == lowercase(req.data@[i as int].narration@),
            ensures
                match found {
                    None => forall|k: int| 0 <= k < req.rules@.len() ==> !rule_matches(req.data@[i as int].narration@, #[trigger] req.rules@[k]),
                    Some(j) => first_match(req.data@[i as int].narration@, req.rules@, j as int),
                },
        {
            if contains_chars(&narration, &patterns[j]) {
                found = Some(j);
                break;
            }
        }
        match found {
            Some(j) => {
                let rule = &req.rules[j];
                let out = MapOutput { category: rule.category.clone(), merchant: rule.merchant.clone() };
                mapped.push(Some(out));
            },
            None => {
                mapped.push(None);
            },
        }
    }
    Ok(CategorizeResponse { data: mapped })
}

/// `entry` was mapped to `category` and `merchant`.
pub open spec fn in_group(entry: DeriveInput, category: Seq<char>, merchant: Seq<char>) -> bool {
    entry.category@ == category && entry.merchant@ == merchant
}

/// Some entry of `data` was mapped to `category` and `merchant`.
pub open spec fn is_group(data: Seq<DeriveInput>, category: Seq<char>, merchant: Seq<char>) -> bool {
    exists|k: int| 0 <= k < data.len() && in_group(#[trigger] data[k], category, merchant)
}

/// How many entries mapped to `category` and `merchant` have `t` among the
/// tokens of their narration.
pub open spec fn group_df(
    data: Seq<DeriveInput>,
    category: Seq<char>,
    merchant: Seq<char>,
    t: Seq<char>,
) -> nat
    decreases data.len(),
{
    if data.len() == 0 {
        0
    } else {
        group_df(data.drop_last(), category, merchant, t) + if in_group(
            data.last(),
            category,
            merchant,
        ) && has_token(data.last().narration@, t) {
            1nat
        } else {
            0nat
        }
    }
}

/// How many entries of `data`, whatever their mapping, have `t` among the
/// tokens of their narration.
pub open spec fn global_df(data: Seq<DeriveInput>, t: Seq<char>) -> nat
    decreases data.len(),
{
    if data.len() == 0 {
        0
    } else {
        global_df(data.drop_last(), t) + if has_token(data.last().narration@, t) {
            1nat
        } else {
            0nat
        }
    }
}

/// `t` occurs in the group and at least four in five of the narrations that
/// hold it belong to the group.
pub open spec fn exclusive(
    data: Seq<DeriveInput>,
    category: Seq<char>,
    merchant: Seq<char>,
    t: Seq<char>,
) -> bool {
    &&& group_df(data, category, merchant, t) > 0
    &&& 5 * group_df(data, category, merchant, t) >= 4 * global_df(data, t)
}

/// How well `t` represents the group: its frequency in the group weighs a
/// thousand times its length in bytes, which breaks ties.
pub open spec fn score(
    data: Seq<DeriveInput>,
    category: Seq<char>,
    merchant: Seq<char>,
    t: Seq<char>,
) -> int {
    (group_df(data, category, merchant, t) * 1000 + byte_len(t)) as int
}

/// Token `t` ranks at least as high as token `u` for the group: a higher
/// score, or the same score and `t` first in code point order (or `t` is `u`).
pub open spec fn ranks_over(
    data: Seq<DeriveInput>,
    category: Seq<char>,
    merchant: Seq<char>,
    t: Seq<char>,
    u: Seq<char>,
) -> bool {
    ||| score(data, category, merchant, u) < score(data, category, merchant, t)
    ||| score(data, category, merchant, u) == score(data, category, merchant, t) && (u == t
        || chars_lt(t, u))
}

/// `t` is the group's best exclusive token: the highest score, and of the
/// tokens with that score the first in code point order.
pub open spec fn best_token(
    data: Seq<DeriveInput>,
    category: Seq<char>,
    merchant: Seq<char>,
    t: Seq<char>,
) -> bool {
    &&& exclusive(data, category, merchant, t)
    &&& forall|u: Seq<char>|
        #[trigger] exclusive(data, category, merchant, u) ==> ranks_over(
            data,
            category,
            merchant,
            t,
            u,
        )
}

/// A group has at most one best token.
pub proof fn law_best_token_unique(
    data: Seq<DeriveInput>,
    category: Seq<char>,
    merchant: Seq<char>,
    t: Seq<char>,
    u: Seq<char>,
)
    requires
        best_token(data, category, merchant, t),
        best_token(data, category, merchant, u),
    ensures
        t == u,
{
    assert(exclusive(data, category, merchant, u));
    assert(exclusive(data, category, merchant, t));
    lemma_chars_lt_total(t, u);
}

/// Rule `a` sorts strictly before rule `b`: by category, then by merchant.
pub open spec fn rule_lt(a: CategoryRule, b: CategoryRule) -> bool {
    chars_lt(a.category@, b.category@) || (a.category@ == b.category@ && chars_lt(
        a.merchant@,
        b.merchant@,
    ))
}

/// `list` holds exactly the tokens of `narration`, perhaps some twice.
pub open spec fn lists_tokens_of(list: Seq<String>, narration: Seq<char>) -> bool {
    &&& forall|k: int| 0 <= k < list.len() ==> has_token(narration, #[trigger] list[k]@)
    &&& forall|t: Seq<char>| has_token(narration, t) ==> listed(list, t)
}

/// A group with a positive count holds an entry with the token.
proof fn lemma_group_df_witness(
    data: Seq<DeriveInput>,
    category: Seq<char>,
    merchant: Seq<char>,
    t: Seq<char>,
)
    requires
        group_df(data, category, merchant, t) > 0,
    ensures
        exists|m: int|
            0 <= m < data.len() && in_group(#[trigger] data[m], category, merchant) && has_token(
                data[m].narration@,
                t,
            ),
    decreases data.len(),
{
    let last = data.len() - 1;
    if in_group(data.last(), category, merchant) && has_token(data.last().narration@, t) {
        assert(in_group(data[last], category, merchant));
    } else {
        lemma_group_df_witness(data.drop_last(), category, merchant, t);
        let m = choose|m: int|
            0 <= m < data.drop_last().len() && in_group(
                #[trigger] data.drop_last()[m],
                category,
                merchant,
            ) && has_token(data.drop_last()[m].narration@, t);
        assert(data[m] == data.drop_last()[m]);
    }
}

/// The two rules are for the same category and merchant.
pub open spec fn same_key(a: CategoryRule, b: CategoryRule) -> bool {
    a.category@ == b.category@ && a.merchant@ == b.merchant@
}

/// Every rule of `rules` sorts strictly before every later one.
pub open spec fn rules_sorted(rules: Seq<CategoryRule>) -> bool {
    forall|i: int, j: int| 0 <= i < j < rules.len() ==> rule_lt(#[trigger] rules[i], #[trigger] rules[j])
}

/// Some rule of `rules` is for `category` and `merchant`.
pub open spec fn has_rule(rules: Seq<CategoryRule>, category: Seq<char>, merchant: Seq<char>) -> bool {
    exists|i: int| 0 <= i < rules.len() && #[trigger] rules[i].category@ == category && rules[i].merchant@ == merchant
}

/// Some token is exclusive to the group.
pub open spec fn has_exclusive(data: Seq<DeriveInput>, category: Seq<char>, merchant: Seq<char>) -> bool {
    exists|t: Seq<char>| #[trigger] exclusive(data, category, merchant, t)
}

/// The rule's key is that of one of the first `g` groups.
pub open spec fn key_among(rule: CategoryRule, cats: Seq<String>, mers: Seq<String>, g: int) -> bool {
    exists|h: int| 0 <= h < g && rule.category@ == #[trigger] cats[h]@ && rule.merchant@ == mers[h]@
}

/// Rule order is transitive.
proof fn lemma_rule_lt_transitive(a: CategoryRule, b: CategoryRule, c: CategoryRule)
    requires
        rule_lt(a, b),
        rule_lt(b, c),
    ensures
        rule_lt(a, c),
{
    lemma_chars_lt_irreflexive(a.category@);
    lemma_chars_lt_irreflexive(b.category@);
    if chars_lt(a.category@, b.category@) && chars_lt(b.category@, c.category@) {
        lemma_chars_lt_transitive(a.category@, b.category@, c.category@);
    } else if a.category@ == b.category@ && b.category@ == c.category@ {
        lemma_chars_lt_transitive(a.merchant@, b.merchant@, c.merchant@);
    }
}

/// Of two rules for different keys, one sorts before the other.
proof fn lemma_rule_lt_total(a: CategoryRule, b: CategoryRule)
    requires
        !same_key(a, b),
    ensures
        rule_lt(a, b) || rule_lt(b, a),
{
    lemma_chars_lt_total(a.category@, b.category@);
    lemma_chars_lt_total(a.merchant@, b.merchant@);
}

/// Inserts `rule` at its place in sorted `rules`, returning where it went.
fn insert_sorted(rules: &mut Vec<CategoryRule>, rule: CategoryRule) -> (p: usize)
    requires
        rules_sorted(old(rules)@),
        forall|i: int| 0 <= i < old(rules)@.len() ==> !same_key(#[trigger] old(rules)@[i], rule),
    ensures
        p <= old(rules)@.len(),
        final(rules)@ == old(rules)@.insert(p as int, rule),
        rules_sorted(final(rules)@),
{
    let cat_chars = chars_of(rule.category.as_str());
    let mer_chars = chars_of(rule.merchant.as_str());
    let mut p: usize = 0;
    while p < rules.len()
        invariant_except_break
            forall|q: int| 0 <= q < p ==> rule_lt(#[trigger] rules@[q], rule),
        invariant
            p <= rules@.len(),
            rules@ == old(rules)@,
            forall|i: int| 0 <= i < old(rules)@.len() ==> !same_key(#[trigger] old(rules)@[i], rule),
            cat_chars@ == rule.category@,
            mer_chars@ == rule.merchant@,
        ensures
            p <= rules@.len(),
            forall|q: int| 0 <= q < p ==> rule_lt(#[trigger] rules@[q], rule),
            p < rules@.len() ==> rule_lt(rule, rules@[p as int]),
        decreases rules@.len() - p,
    {
        let other_cat = chars_of(rules[p].category.as_str());
        let other_mer = chars_of(rules[p].merchant.as_str());
        let before = chars_less(&cat_chars, &other_cat) || (rules[p].category == rule.category
            && chars_less(&mer_chars, &other_mer));
        if before {
            break;
        }
        proof {
            lemma_rule_lt_total(rules@[p as int], rule);
        }
        p = p + 1;
    }
    let ghost before = rules@;
    rules.insert(p, rule);
    proof {
        before.insert_ensures(p as int, rule);
        assert forall|i: int, j: int| 0 <= i < j < rules@.len() implies rule_lt(#[trigger] rules@[i], #[trigger] rules@[j]) by {
            if j < p {
            } else if j == p {
            } else if i < p {
                assert(rules@[j] == before[j - 1]);
                if j - 1 > p {
                    lemma_rule_lt_transitive(rule, before[p as int], before[j - 1]);
                }
                lemma_rule_lt_transitive(before[i], rule, before[j - 1]);
            } else if i == p {
                assert(rules@[j] == before[j - 1]);
                if j - 1 > p {
                    lemma_rule_lt_transitive(rule, before[p as int], before[j - 1]);
                }
            } else {
                assert(rules@[i] == before[i - 1]);
                assert(rules@[j] == before[j - 1]);
            }
        }
    }
    p
}

/// The best exclusive token of group `g`, whose key is `category` and
/// `merchant`; `None` when the group has no exclusive token.
fn best_in_group(
    toks: &Vec<Vec<String>>,
    gid: &Vec<usize>,
    g: usize,
    Ghost(data): Ghost<Seq<DeriveInput>>,
    Ghost(category): Ghost<Seq<char>>,
    Ghost(merchant): Ghost<Seq<char>>,
) -> (best: Option<String>)
    requires
        toks@.len() == data.len(),
        gid@.len() == data.len(),
        forall|m: int| 0 <= m < data.len() ==> lists_tokens_of(#[trigger] toks@[m]@, data[m].narration@),
        forall|m: int| 0 <= m < data.len() ==> (gid@[m] == g <==> in_group(#[trigger] data[m], category, merchant)),
    ensures
        match best {
            Some(b) => best_token(data, category, merchant, b@),
            None => !has_exclusive(data, category, merchant),
        },
{
    let n = toks.len();
    let mut best: Option<String> = None;
    let mut best_chars: Vec<char> = Vec::new();
    let mut best_score: u128 = 0;
    for k in 0..n
        invariant
            n == data.len(),
            toks@.len() == n,
            gid@.len() == n,
            forall|m: int| 0 <= m < n ==> lists_tokens_of(#[trigger] toks@[m]@, data[m].narration@),
            forall|m: int| 0 <= m < n ==> (gid@[m] == g <==> in_group(#[trigger] data[m], category, merchant)),
            best is None ==> best_score == 0,
            best matches Some(b) ==> exclusive(data, category, merchant, b@) && score(data, category, merchant, b@) == best_score && best_chars@ == b@,
            forall|m: int, j: int|
                0 <= m < k && gid@[m] == g && 0 <= j < toks@[m]@.len() && exclusive(data, category, merchant, #[trigger] toks@[m]@[j]@)
                    ==> (best matches Some(b) && ranks_over(data, category, merchant, b@, toks@[m]@[j]@)),
    {
        if gid[k] == g {
            let list = &toks[k];
            for j in 0..list.len()
                invariant
                    n == data.len(),
                    toks@.len() == n,
                    gid@.len() == n,
                    list == toks@[k as int],
                    forall|m: int| 0 <= m < n ==> lists_tokens_of(#[trigger] toks@[m]@, data[m].narration@),
                    forall|m: int| 0 <= m < n ==> (gid@[m] == g <==> in_group(#[trigger] data[m], category, merchant)),
                    best is None ==> best_score == 0,
                    best matches Some(b) ==> exclusive(data, category, merchant, b@) && score(data, category, merchant, b@) == best_score && best_chars@ == b@,
                    forall|m: int, j: int|
                        0 <= m < k && gid@[m] == g && 0 <= j < toks@[m]@.len() && exclusive(data, category, merchant, #[trigger] toks@[m]@[j]@)
                            ==> (best matches Some(b) && ranks_over(data, category, merchant, b@, toks@[m]@[j]@)),
                    forall|i: int|
                        0 <= i < j && exclusive(data, category, merchant, #[trigger] toks@[k as int]@[i]@)
                            ==> (best matches Some(b) && ranks_over(data, category, merchant, b@, toks@[k as int]@[i]@)),
            {
                let t = &list[j];
                let (in_g, all) = doc_freqs(toks, gid, g, t, Ghost(data), Ghost(category), Ghost(merchant));
                let gc = in_g as u128;
                let tot = all as u128;
                if in_g > 0 && 5 * gc >= 4 * tot {
                    let t_chars = chars_of(t.as_str());
                    let len = utf8_len(&t_chars);
                    let s = gc * 1000 + len;
                    let ghost previous = best;
                    if s > best_score || (s == best_score && chars_less(&t_chars, &best_chars)) {
                        proof {
                            if let Some(b) = previous {
                                assert forall|u: Seq<char>| ranks_over(data, category, merchant, b@, u) implies ranks_over(data, category, merchant, t@, u) by {
                                    if s == best_score && score(data, category, merchant, u) == s && chars_lt(b@, u) {
                                        lemma_chars_lt_transitive(t@, b@, u);
                                    }
                                }
                            }
                        }
                        best_score = s;
                        best = Some(t.clone());
                        best_chars = t_chars;
                    } else {
                        proof {
                            lemma_chars_lt_total(t@, best_chars@);
                        }
                    }
                }
            }
        }
    }
    proof {
        assert forall|u: Seq<char>| #[trigger] exclusive(data, category, merchant, u) implies (best matches Some(b) && ranks_over(data, category, merchant, b@, u)) by {
            lemma_group_df_witness(data, category, merchant, u);
            let m = choose|m: int| 0 <= m < data.len() && in_group(#[trigger] data[m], category, merchant) && has_token(data[m].narration@, u);
            assert(lists_tokens_of(toks@[m]@, data[m].narration@));
            assert(listed(toks@[m]@, u));
            let j = choose|j: int| 0 <= j < toks@[m]@.len() && #[trigger] toks@[m]@[j]@ == u;
            assert(gid@[m] == g);
        }
    }
    best
}

/// Whether `t` is one of `list`.
fn list_has(list: &Vec<String>, t: &String) -> (r: bool)
    ensures
        r == listed(list@, t@),
{
    for i in 0..list.len()
        invariant
            forall|k: int| 0 <= k < i ==> list@[k]@ != t@,
    {
        if list[i] == *t {
            return true;
        }
    }
    false
}

/// How many narrations of group `g`, and of all the data, hold token `t`.
fn doc_freqs(
    toks: &Vec<Vec<String>>,
    gid: &Vec<usize>,
    g: usize,
    t: &String,
    Ghost(data): Ghost<Seq<DeriveInput>>,
    Ghost(category): Ghost<Seq<char>>,
    Ghost(merchant): Ghost<Seq<char>>,
) -> (r: (usize, usize))
    requires
        toks@.len() == data.len(),
        gid@.len() == data.len(),
        forall|m: int| 0 <= m < data.len() ==> lists_tokens_of(#[trigger] toks@[m]@, data[m].narration@),
        forall|m: int| 0 <= m < data.len() ==> (gid@[m] == g <==> in_group(#[trigger] data[m], category, merchant)),
    ensures
        r.0 == group_df(data, category, merchant, t@),
        r.1 == global_df(data, t@),
{
    let mut in_group_count: usize = 0;
    let mut all_count: usize = 0;
    for m in 0..toks.len()
        invariant
            toks@.len() == data.len(),
            gid@.len() == data.len(),
            forall|m: int| 0 <= m < data.len() ==> lists_tokens_of(#[trigger] toks@[m]@, data[m].narration@),
            forall|m: int| 0 <= m < data.len() ==> (gid@[m] == g <==> in_group(#[trigger] data[m], category, merchant)),
            in_group_count <= m,
            all_count <= m,
            in_group_count == group_df(data.take(m as int), category, merchant, t@),
            all_count == global_df(data.take(m as int), t@),
    {
        proof {
            assert(data.take(m + 1).drop_last() =~= data.take(m as int));
            assert(data.take(m + 1).last() == data[m as int]);
            assert(lists_tokens_of(toks@[m as int]@, data[m as int].narration@));
            assert(in_group(data[m as int], category, merchant) == (gid@[m as int] == g));
        }
        if list_has(&toks[m], t) {
            proof {
                let w = choose|w: int| 0 <= w < toks@[m as int]@.len() && #[trigger] toks@[m as int]@[w]@ == t@;
            }
            all_count = all_count + 1;
            if gid[m] == g {
                in_group_count = in_group_count + 1;
            }
        }
    }
    assert(data.take(data.len() as int) =~= data);
    (in_group_count, all_count)
}

/// `rules` are the rules the mapped transactions `data` call for: sorted
/// strictly by category then merchant, each for a group of `data` with that
/// group's best token as its pattern, and one for every group that has an
/// exclusive token.
pub open spec fn derived_from(data: Seq<DeriveInput>, rules: Seq<CategoryRule>) -> bool {
    &&& rules_sorted(rules)
    &&& forall|i: int|
        0 <= i < rules.len() ==> is_group(data, #[trigger] rules[i].category@, rules[i].merchant@)
            && best_token(data, rules[i].category@, rules[i].merchant@, rules[i].pattern@)
    &&& forall|k: int, t: Seq<char>|
        0 <= k < data.len() && #[trigger] exclusive(data, data[k].category@, data[k].merchant@, t)
            ==> has_rule(rules, data[k].category@, data[k].merchant@)
}

/// No rule sorts before itself, and of two rules at most one sorts first.
proof fn lemma_rule_lt_asymmetric(a: CategoryRule, b: CategoryRule)
    ensures
        !(rule_lt(a, b) && rule_lt(b, a)),
{
    lemma_chars_lt_irreflexive(a.category@);
    lemma_chars_lt_irreflexive(a.merchant@);
    if rule_lt(a, b) && rule_lt(b, a) {
        lemma_rule_lt_transitive(a, b, a);
    }
}

/// Two strictly sorted rule lists that hold the same keys hold them at the
/// same places.
proof fn lemma_sorted_same_keys(a: Seq<CategoryRule>, b: Seq<CategoryRule>)
    requires
        rules_sorted(a),
        rules_sorted(b),
        forall|i: int| 0 <= i < a.len() ==> has_rule(b, #[trigger] a[i].category@, a[i].merchant@),
        forall|j: int| 0 <= j < b.len() ==> has_rule(a, #[trigger] b[j].category@, b[j].merchant@),
    ensures
        a.len() == b.len(),
        forall|i: int| 0 <= i < a.len() ==> same_key(#[trigger] a[i], b[i]),
    decreases a.len(),
{
    if a.len() == 0 {
        if b.len() > 0 {
            assert(has_rule(a, b[0].category@, b[0].merchant@));
        }
    } else if b.len() == 0 {
        assert(has_rule(b, a[0].category@, a[0].merchant@));
    } else {
        assert(has_rule(b, a[0].category@, a[0].merchant@));
        let j = choose|j: int| 0 <= j < b.len() && #[trigger] b[j].category@ == a[0].category@ && b[j].merchant@ == a[0].merchant@;
        assert(has_rule(a, b[0].category@, b[0].merchant@));
        let i = choose|i: int| 0 <= i < a.len() && #[trigger] a[i].category@ == b[0].category@ && a[i].merchant@ == b[0].merchant@;
        if j > 0 {
            assert(rule_lt(b[0], b[j]));
            assert(rule_lt(a[i], a[0]));
            if i > 0 {
                assert(rule_lt(a[0], a[i]));
                lemma_rule_lt_asymmetric(a[0], a[i]);
            } else {
                lemma_rule_lt_asymmetric(a[0], a[0]);
            }
        }
        assert(same_key(a[0], b[0]));
        let ta = a.drop_first();
        let tb = b.drop_first();
        assert forall|x: int, y: int| 0 <= x < y < ta.len() implies rule_lt(#[trigger] ta[x], #[trigger] ta[y]) by {
            assert(rule_lt(a[x + 1], a[y + 1]));
        }
        assert forall|x: int, y: int| 0 <= x < y < tb.len() implies rule_lt(#[trigger] tb[x], #[trigger] tb[y]) by {
            assert(rule_lt(b[x + 1], b[y + 1]));
        }
        assert forall|x: int| 0 <= x < ta.len() implies has_rule(tb, #[trigger] ta[x].category@, ta[x].merchant@) by {
            assert(ta[x] == a[x + 1]);
            assert(has_rule(b, a[x + 1].category@, a[x + 1].merchant@));
            let y = choose|y: int| 0 <= y < b.len() && #[trigger] b[y].category@ == a[x + 1].category@ && b[y].merchant@ == a[x + 1].merchant@;
            assert(rule_lt(a[0], a[x + 1]));
            if y == 0 {
                lemma_rule_lt_asymmetric(a[0], a[0]);
            }
            assert(tb[y - 1] == b[y]);
        }
        assert forall|x: int| 0 <= x < tb.len() implies has_rule(ta, #[trigger] tb[x].category@, tb[x].merchant@) by {
            assert(tb[x] == b[x + 1]);
            assert(has_rule(a, b[x + 1].category@, b[x + 1].merchant@));
            let y = choose|y: int| 0 <= y < a.len() && #[trigger] a[y].category@ == b[x + 1].category@ && a[y].merchant@ == b[x + 1].merchant@;
            assert(rule_lt(b[0], b[x + 1]));
            if y == 0 {
                lemma_rule_lt_asymmetric(b[0], b[0]);
            }
            assert(ta[y - 1] == a[y]);
        }
        lemma_sorted_same_keys(ta, tb);
        assert forall|i: int| 0 <= i < a.len() implies same_key(#[trigger] a[i], b[i]) by {
            if i > 0 {
                assert(same_key(ta[i - 1], tb[i - 1]));
            }
        }
    }
}

/// The rules that mapped transactions call for are determined by them: two
/// rule lists derived from the same data agree rule by rule, so deriving
/// twice from the same input gives the same rules.
pub proof fn law_derived_rules_unique(
    data: Seq<DeriveInput>,
    a: Seq<CategoryRule>,
    b: Seq<CategoryRule>,
)
    requires
        derived_from(data, a),
        derived_from(data, b),
    ensures
        a.len() == b.len(),
        forall|i: int|
            0 <= i < a.len() ==> (#[trigger] a[i]).category@ == b[i].category@ && a[i].merchant@
                == b[i].merchant@ && a[i].pattern@ == b[i].pattern@,
{
    assert forall|i: int| 0 <= i < a.len() implies has_rule(b, #[trigger] a[i].category@, a[i].merchant@) by {
        assert(is_group(data, a[i].category@, a[i].merchant@));
        let k = choose|k: int| 0 <= k < data.len() && in_group(#[trigger] data[k], a[i].category@, a[i].merchant@);
        assert(exclusive(data, data[k].category@, data[k].merchant@, a[i].pattern@));
    }
    assert forall|j: int| 0 <= j < b.len() implies has_rule(a, #[trigger] b[j].category@, b[j].merchant@) by {
        assert(is_group(data, b[j].category@, b[j].merchant@));
        let k = choose|k: int| 0 <= k < data.len() && in_group(#[trigger] data[k], b[j].category@, b[j].merchant@);
        assert(exclusive(data, data[k].category@, data[k].merchant@, b[j].pattern@));
    }
    lemma_sorted_same_keys(a, b);
    assert forall|i: int| 0 <= i < a.len() implies (#[trigger] a[i]).category@ == b[i].category@ && a[i].merchant@ == b[i].merchant@ && a[i].pattern@ == b[i].pattern@ by {
        assert(same_key(a[i], b[i]));
        law_best_token_unique(data, a[i].category@, a[i].merchant@, a[i].pattern@, b[i].pattern@);
    }
}

/// A derived rule categorizes, on its own, the narration of some transaction
/// of its own group as that group, when lowercasing leaves its pattern as it
/// is. (A pattern is a run of the lowercased narration; that lowercasing it
/// again changes nothing is not something `str::to_lowercase` documents.)
pub proof fn law_derived_rule_matches_its_group(
    data: Seq<DeriveInput>,
    rules: Seq<CategoryRule>,
    i: int,
)
    requires
        derived_from(data, rules),
        0 <= i < rules.len(),
        lowercase(rules[i].pattern@) == rules[i].pattern@,
    ensures
        exists|k: int|
            0 <= k < data.len() && in_group(#[trigger] data[k], rules[i].category@, rules[i].merchant@)
                && categorized_as(
                data[k].narration@,
                seq![rules[i]],
                Some(MapOutput { category: rules[i].category, merchant: rules[i].merchant }),
            ),
{
    let r = rules[i];
    let t = r.pattern@;
    assert(best_token(data, r.category@, r.merchant@, t));
    lemma_group_df_witness(data, r.category@, r.merchant@, t);
    let k = choose|k: int| 0 <= k < data.len() && in_group(#[trigger] data[k], r.category@, r.merchant@) && has_token(data[k].narration@, t);
    let l = lowercase(data[k].narration@);
    let (a, b) = choose|a: int, b: int| #[trigger] is_piece(l, a, b) && l.subrange(a, b) == t;
    assert(occurs_at(l, t, a));
    assert(rule_matches(data[k].narration@, r));
    assert(seq![r][0] == r);
    assert(first_match(data[k].narration@, seq![r], 0));
}

/// Analyzes manually mapped transactions to suggest new rules.
///
/// Entries are grouped by category and merchant. A token of a group's
/// narrations is exclusive to it when at least four in five of all the
/// narrations that hold the token are in the group; the group's rule takes the
/// exclusive token with the highest score, frequency in the group first and
/// length second, and of tokens with the same score the first in code point
/// order. Groups without an exclusive token get no rule, and the rules come
/// out sorted by category, then merchant. Never an error.
pub fn derive_rules(req: &DeriveRulesRequest) -> (r: Result<DeriveRulesResponse, XfingineError>)
    ensures
        r is Ok,
        derived_from(req.data@, r->Ok_0.rules@),
{
    let ghost data = req.data@;
    let n = req.data.len();

    // The tokens of every narration.
    let mut toks: Vec<Vec<String>> = Vec::with_capacity(n);
    for k in 0..n
        invariant
            n == data.len(),
            data == req.data@,
            toks@.len() == k,
            forall|m: int| 0 <= m < k ==> lists_tokens_of(#[trigger] toks@[m]@, data[m].narration@),
    {
        toks.push(tokenize(req.data[k].narration.as_str()));
    }

    // The groups, in order of first appearance, and each entry's group.
    let mut cats: Vec<String> = Vec::new();
    let mut mers: Vec<String> = Vec::new();
    let mut gid: Vec<usize> = Vec::with_capacity(n);
    for k in 0..n
        invariant
            n == data.len(),
            data == req.data@,
            cats@.len() == mers@.len(),
            gid@.len() == k,
            forall|m: int| 0 <= m < k ==> #[trigger] gid@[m] < cats@.len() && in_group(data[m], cats@[gid@[m] as int]@, mers@[gid@[m] as int]@),
            forall|a: int, b: int| 0 <= a < b < cats@.len() ==> !(#[trigger] cats@[a]@ == #[trigger] cats@[b]@ && mers@[a]@ == mers@[b]@),
            forall|g: int| 0 <= g < cats@.len() ==> is_group(data, #[trigger] cats@[g]@, mers@[g]@),
    {
        let entry = &req.data[k];
        let mut found: Option<usize> = None;
        for g in 0..cats.len()
            invariant_except_break
                found is None,
                forall|h: int| 0 <= h < g ==> !in_group(*entry, #[trigger] cats@[h]@, mers@[h]@),
            invariant
                cats@.len() == mers@.len(),
            ensures
                match found {
                    None => forall|h: int| 0 <= h < cats@.len() ==> !in_group(*entry, #[trigger] cats@[h]@, mers@[h]@),
                    Some(h) => h < cats@.len() && in_group(*entry, cats@[h as int]@, mers@[h as int]@),
                },
        {
            if cats[g] == entry.category && mers[g] == entry.merchant {
                found = Some(g);
                break;
            }
        }
        match found {
            Some(h) => {
                gid.push(h);
            },
            None => {
                proof {
                    assert(in_group(data[k as int], entry.category@, entry.merchant@));
                }
                cats.push(entry.category.clone());
                mers.push(entry.merchant.clone());
                gid.push(cats.len() - 1);
            },
        }
        assert(gid@[k as int] < cats@.len());
    }

    // For each group, its best exclusive token, kept in sorted order.
    let groups = cats.len();
    let mut rules: Vec<CategoryRule> = Vec::new();
    for g in 0..groups
        invariant
            n == data.len(),
            data == req.data@,
            groups == cats@.len(),
            cats@.len() == mers@.len(),
            toks@.len() == n,
            gid@.len() == n,
            forall|m: int| 0 <= m < n ==> lists_tokens_of(#[trigger] toks@[m]@, data[m].narration@),
            forall|m: int| 0 <= m < n ==> #[trigger] gid@[m] < cats@.len() && in_group(data[m], cats@[gid@[m] as int]@, mers@[gid@[m] as int]@),
            forall|a: int, b: int| 0 <= a < b < cats@.len() ==> !(#[trigger] cats@[a]@ == #[trigger] cats@[b]@ && mers@[a]@ == mers@[b]@),
            forall|h: int| 0 <= h < cats@.len() ==> is_group(data, #[trigger] cats@[h]@, mers@[h]@),
            rules_sorted(rules@),
            forall|i: int| 0 <= i < rules@.len() ==> key_among(#[trigger] rules@[i], cats@, mers@, g as int),
            forall|i: int| 0 <= i < rules@.len() ==> is_group(data, #[trigger] rules@[i].category@, rules@[i].merchant@) && best_token(data, rules@[i].category@, rules@[i].merchant@, rules@[i].pattern@),
            forall|h: int| 0 <= h < g && has_exclusive(data, #[trigger] cats@[h]@, mers@[h]@) ==> has_rule(rules@, cats@[h]@, mers@[h]@),
    {
        let ghost category = cats@[g as int]@;
        let ghost merchant = mers@[g as int]@;
        proof {
            assert forall|m: int| 0 <= m < n implies (gid@[m] == g <==> in_group(#[trigger] data[m], category, merchant)) by {
                assert(gid@[m] < cats@.len());
                if in_group(data[m], category, merchant) && gid@[m] != g {
                    if gid@[m] < g {
                        assert(!(cats@[gid@[m] as int]@ == cats@[g as int]@ && mers@[gid@[m] as int]@ == mers@[g as int]@));
                    } else {
                        assert(!(cats@[g as int]@ == cats@[gid@[m] as int]@ && mers@[g as int]@ == mers@[gid@[m] as int]@));
                    }
                }
            }
        }
        let best = best_in_group(&toks, &gid, g, Ghost(data), Ghost(category), Ghost(merchant));
        match best {
            Some(token) => {
                let rule = CategoryRule { pattern: token, category: cats[g].clone(), merchant: mers[g].clone() };
                proof {
                    assert forall|i: int| 0 <= i < rules@.len() implies !same_key(#[trigger] rules@[i], rule) by {
                        assert(key_among(rules@[i], cats@, mers@, g as int));
                        let h = choose|h: int| 0 <= h < g && rules@[i].category@ == #[trigger] cats@[h]@ && rules@[i].merchant@ == mers@[h]@;
                        assert(!(cats@[h]@ == cats@[g as int]@ && mers@[h]@ == mers@[g as int]@));
                    }
                    assert(is_group(data, category, merchant));
                }
                let ghost before = rules@;
                let p = insert_sorted(&mut rules, rule);
                proof {
                    before.insert_ensures(p as int, rule);
                    assert(rules@[p as int] == rule);
                    assert forall|i: int| 0 <= i < rules@.len() implies key_among(#[trigger] rules@[i], cats@, mers@, g + 1) by {
                        if i < p {
                            assert(rules@[i] == before[i]);
                            assert(key_among(before[i], cats@, mers@, g as int));
                        } else if i > p {
                            assert(rules@[i] == before[i - 1]);
                            assert(key_among(before[i - 1], cats@, mers@, g as int));
                        } else {
                            assert(rules@[i].category@ == cats@[g as int]@);
                        }
                    }
                    assert forall|i: int| 0 <= i < rules@.len() implies is_group(data, #[trigger] rules@[i].category@, rules@[i].merchant@) && best_token(data, rules@[i].category@, rules@[i].merchant@, rules@[i].pattern@) by {
                        if i < p {
                            assert(rules@[i] == before[i]);
                        } else if i > p {
                            assert(rules@[i] == before[i - 1]);
                        }
                    }
                    assert forall|h: int| 0 <= h < g + 1 && has_exclusive(data, #[trigger] cats@[h]@, mers@[h]@) implies has_rule(rules@, cats@[h]@, mers@[h]@) by {
                        if h < g {
                            let i = choose|i: int| 0 <= i < before.len() && #[trigger] before[i].category@ == cats@[h]@ && before[i].merchant@ == mers@[h]@;
                            if i < p {
                                assert(rules@[i] == before[i]);
                            } else {
                                assert(rules@[i + 1] == before[i]);
                            }
                        } else {
                            assert(rules@[p as int].category@ == cats@[h]@);
                        }
                    }
                }
            },
            None => {
                proof {
                    assert forall|i: int| 0 <= i < rules@.len() implies key_among(#[trigger] rules@[i], cats@, mers@, g + 1) by {
                        assert(key_among(rules@[i], cats@, mers@, g as int));
                    }
                }
            },
        }
    }
    proof {
        assert forall|k: int, t: Seq<char>|
            0 <= k < req.data@.len() && #[trigger] exclusive(req.data@, req.data@[k].category@, req.data@[k].merchant@, t)
            implies has_rule(rules@, req.data@[k].category@, req.data@[k].merchant@) by {
            let h = gid@[k] as int;
            assert(gid@[k] < cats@.len());
            assert(in_group(data[k], cats@[h]@, mers@[h]@));
            assert(exclusive(data, cats@[h]@, mers@[h]@, t));
            assert(has_exclusive(data, cats@[h]@, mers@[h]@));
            assert(has_rule(rules@, cats@[h]@, mers@[h]@));
            let i = choose|i: int| 0 <= i < rules@.len() && #[trigger] rules@[i].category@ == cats@[h]@ && rules@[i].merchant@ == mers@[h]@;
        }
    }
    Ok(DeriveRulesResponse { rules })
}

} // verus!

use xfingine::categorizer::{
    categorize_transactions, derive_rules, CategorizeRequest, CategoryRule, DeriveInput,
    DeriveRulesRequest, MapInput,
};

fn rule(pattern: &str, category: &str, merchant: &str) -> CategoryRule {
    CategoryRule {
        pattern: pattern.to_string(),
        category: category.to_string(),
        merchant: merchant.to_string(),
    }
}

fn input(narration: &str) -> MapInput {
    MapInput {
        narration: narration.to_string(),
    }
}

fn entry(narration: &str, category: &str, merchant: &str) -> DeriveInput {
    DeriveInput {
        narration: narration.to_string(),
        category: category.to_string(),
        merchant: merchant.to_string(),
    }
}

#[test]
fn test_categorize_transactions() {
    let req = CategorizeRequest {
        data: vec![
            MapInput {
                narration: "UPI/SWIGGY/12345/Food".to_string(),
            },
            MapInput {
                narration: "POS 99 APOLLO CRADLE".to_string(),
            },
            MapInput {
                narration: "UNKNOWN VENDOR".to_string(),
            },
        ],
        rules: vec![
            CategoryRule {
                pattern: "swiggy".to_string(),
                category: "Food/Delivery".to_string(),
                merchant: "Swiggy".to_string(),
            },
            CategoryRule {
                pattern: "apollo cradle".to_string(),
                category: "Health/Hospital".to_string(),
                merchant: "Apollo Cradle".to_string(),
            },
        ],
    };

    let resp = categorize_transactions(&req).unwrap();

    assert_eq!(resp.data.len(), 3);

    let out0 = resp.data[0].as_ref().unwrap();
    assert_eq!(out0.category, "Food/Delivery");
    assert_eq!(out0.merchant, "Swiggy");

    let out1 = resp.data[1].as_ref().unwrap();
    assert_eq!(out1.category, "Health/Hospital");
    assert_eq!(out1.merchant, "Apollo Cradle");

    // Uncategorized becomes None
    assert!(resp.data[2].is_none());
}

#[test]
fn test_derive_rules() {
    let req = DeriveRulesRequest {
        data: vec![
            DeriveInput {
                narration: "UPI/SWIGGY/BANGALORE/123".to_string(),
                category: "Food/Delivery".to_string(),
                merchant: "Swiggy".to_string(),
            },
            DeriveInput {
                narration: "SWIGGY INSTAMART POS".to_string(),
                category: "Food/Delivery".to_string(),
                merchant: "Swiggy".to_string(),
            },
            DeriveInput {
                narration: "POS 887 ZEPTO GROCERY".to_string(),
                category: "Home/Grocery".to_string(),
                merchant: "Zepto".to_string(),
            },
            DeriveInput {
                narration: "UPI ZEPTO MUMBAI".to_string(),
                category: "Home/Grocery".to_string(),
                merchant: "Zepto".to_string(),
            },
        ],
    };

    let resp = derive_rules(&req).unwrap();

    assert_eq!(resp.rules.len(), 2);

    assert_eq!(resp.rules[0].category, "Food/Delivery");
    assert_eq!(resp.rules[0].merchant, "Swiggy");
    assert_eq!(resp.rules[0].pattern, "swiggy");

    assert_eq!(resp.rules[1].category, "Home/Grocery");
    assert_eq!(resp.rules[1].merchant, "Zepto");
    assert_eq!(resp.rules[1].pattern, "zepto");
}

#[test]
fn first_matching_rule_wins() {
    let req = CategorizeRequest {
        data: vec![input("AMAZON PAY INDIA")],
        rules: vec![
            rule("zomato", "Food/Delivery", "Zomato"),
            rule("amazon", "Shopping/Online", "Amazon"),
            rule("amazon pay", "Bills/Wallet", "Amazon Pay"),
        ],
    };
    let resp = categorize_transactions(&req).unwrap();
    let out = resp.data[0].as_ref().unwrap();
    assert_eq!(out.category, "Shopping/Online");
    assert_eq!(out.merchant, "Amazon");
}

#[test]
fn patterns_match_case_insensitively() {
    // Both sides are lowercased, so an upper-case pattern matches too.
    let req = CategorizeRequest {
        data: vec![input("neft from acme corp"), input("ÉCOLE FEES")],
        rules: vec![rule("ACME", "Income/Salary", "Acme"), rule("école", "Education", "École")],
    };
    let resp = categorize_transactions(&req).unwrap();
    assert_eq!(resp.data[0].as_ref().unwrap().merchant, "Acme");
    assert_eq!(resp.data[1].as_ref().unwrap().category, "Education");
}

#[test]
fn empty_pattern_matches_everything_and_no_rules_match_nothing() {
    let with_empty = CategorizeRequest {
        data: vec![input("anything at all"), input("")],
        rules: vec![rule("", "Misc", "Unknown")],
    };
    let resp = categorize_transactions(&with_empty).unwrap();
    assert!(resp.data.iter().all(|out| out.as_ref().unwrap().category == "Misc"));

    let without_rules = CategorizeRequest {
        data: vec![input("SWIGGY")],
        rules: vec![],
    };
    let resp = categorize_transactions(&without_rules).unwrap();
    assert_eq!(resp.data.len(), 1);
    assert!(resp.data[0].is_none());
}

#[test]
fn pattern_longer_than_narration_does_not_match() {
    let req = CategorizeRequest {
        data: vec![input("ola")],
        rules: vec![rule("ola cabs", "Travel/Cab", "Ola")],
    };
    assert!(categorize_transactions(&req).unwrap().data[0].is_none());
}

#[test]
fn shared_tokens_are_not_exclusive() {
    // "upi" appears in both groups (2 of 4 narrations), so it is not
    // exclusive; "swiggy" and "zepto" are.
    let req = DeriveRulesRequest {
        data: vec![
            entry("UPI SWIGGY", "Food/Delivery", "Swiggy"),
            entry("UPI SWIGGY", "Food/Delivery", "Swiggy"),
            entry("UPI ZEPTO", "Home/Grocery", "Zepto"),
            entry("UPI ZEPTO", "Home/Grocery", "Zepto"),
        ],
    };
    let resp = derive_rules(&req).unwrap();
    let patterns: Vec<&str> = resp.rules.iter().map(|r| r.pattern.as_str()).collect();
    assert_eq!(patterns, vec!["swiggy", "zepto"]);
}

#[test]
fn four_in_five_is_exclusive_enough() {
    // "mart" is in four narrations of the first group and one of the other:
    // 4/5 = 0.8 is exclusive, and its frequency beats every other token.
    let req = DeriveRulesRequest {
        data: vec![
            entry("mart aaa1", "Home/Grocery", "Mart"),
            entry("mart bbb2", "Home/Grocery", "Mart"),
            entry("mart ccc3", "Home/Grocery", "Mart"),
            entry("mart ddd4", "Home/Grocery", "Mart"),
            entry("mart zzzz", "Other", "Other"),
        ],
    };
    let resp = derive_rules(&req).unwrap();
    assert_eq!(resp.rules[0].category, "Home/Grocery");
    assert_eq!(resp.rules[0].pattern, "mart");
    // The other group's only exclusive token is "zzzz": "mart" is 1/5 there.
    assert_eq!(resp.rules[1].category, "Other");
    assert_eq!(resp.rules[1].pattern, "zzzz");
}

#[test]
fn three_in_four_is_not_exclusive() {
    let req = DeriveRulesRequest {
        data: vec![
            entry("shop", "A", "A"),
            entry("shop", "A", "A"),
            entry("shop", "A", "A"),
            entry("shop", "B", "B"),
        ],
    };
    let resp = derive_rules(&req).unwrap();
    assert!(resp.rules.is_empty());
}

#[test]
fn longer_token_breaks_frequency_ties() {
    let req = DeriveRulesRequest {
        data: vec![entry("abc abcdef", "Cat", "Shop")],
    };
    let resp = derive_rules(&req).unwrap();
    assert_eq!(resp.rules.len(), 1);
    assert_eq!(resp.rules[0].pattern, "abcdef");
}

#[test]
fn short_tokens_are_ignored_and_bytes_count() {
    // "ab" and "12" are two bytes and ignored; "éé" is four bytes.
    let only_short = DeriveRulesRequest {
        data: vec![entry("ab/12", "Cat", "Shop")],
    };
    assert!(derive_rules(&only_short).unwrap().rules.is_empty());

    let multibyte = DeriveRulesRequest {
        data: vec![entry("ÉÉ-ab", "Cat", "Shop")],
    };
    let resp = derive_rules(&multibyte).unwrap();
    assert_eq!(resp.rules.len(), 1);
    assert_eq!(resp.rules[0].pattern, "éé");
}

#[test]
fn rules_come_out_sorted_by_category_then_merchant() {
    let req = DeriveRulesRequest {
        data: vec![
            entry("zzz111", "Travel", "Uber"),
            entry("yyy222", "Food", "Zomato"),
            entry("xxx333", "Food", "Swiggy"),
            entry("www444", "Bills", "Airtel"),
        ],
    };
    let resp = derive_rules(&req).unwrap();
    let keys: Vec<(&str, &str)> = resp
        .rules
        .iter()
        .map(|r| (r.category.as_str(), r.merchant.as_str()))
        .collect();
    assert_eq!(
        keys,
        vec![("Bills", "Airtel"), ("Food", "Swiggy"), ("Food", "Zomato"), ("Travel", "Uber")]
    );
}

#[test]
fn no_data_gives_no_rules() {
    let req = DeriveRulesRequest { data: vec![] };
    assert!(derive_rules(&req).unwrap().rules.is_empty());
}

#[test]
fn derived_rules_categorize_their_own_narrations() {
    let data = vec![
        entry("UPI/SWIGGY/BANGALORE/123", "Food/Delivery", "Swiggy"),
        entry("POS 887 ZEPTO GROCERY", "Home/Grocery", "Zepto"),
    ];
    let rules = derive_rules(&DeriveRulesRequest { data: data.clone() }).unwrap().rules;
    let req = CategorizeRequest {
        data: data.iter().map(|d| input(&d.narration)).collect(),
        rules,
    };
    let resp = categorize_transactions(&req).unwrap();
    for (d, out) in data.iter().zip(resp.data.iter()) {
        let out = out.as_ref().unwrap();
        assert_eq!(out.category, d.category);
        assert_eq!(out.merchant, d.merchant);
    }
}

#[test]
fn equal_scores_go_to_the_first_token_in_code_point_order() {
    for narration in ["ABC XYZ", "XYZ ABC"] {
        let req = DeriveRulesRequest {
            data: vec![entry(narration, "A", "a")],
        };
        let first = derive_rules(&req).unwrap();
        let second = derive_rules(&req).unwrap();
        assert_eq!(first.rules, second.rules);
        assert_eq!(first.rules.len(), 1);
        assert_eq!(first.rules[0].pattern, "abc");
    }
}

//! The dictionaries that the application keeps: their files and the check
//! of the rule names before a dictionary of rules is stored.

use crate::matchers::IpcMasterRule;
use crate::models::AppError;
use crate::text::{same_text, trim, trimmed};
use vstd::hash_map::StringHashMap;
use vstd::prelude::*;
use vstd::string::StringExecFns;

verus! {

/// The file in which the dictionary `name` is kept, for the three
/// dictionaries that there are.
pub open spec fn file_of(name: Seq<char>) -> Option<Seq<char>> {
    if name == "ipc_master"@ {
        Some("ipc_master.json"@)
    } else if name == "exception_master"@ {
        Some("exception_master.json"@)
    } else if name == "column_alias"@ {
        Some("column_alias.json"@)
    } else {
        None
    }
}

/// Tells the file in which a dictionary is kept.
pub fn dictionary_file_name(name: &str) -> (r: Option<&'static str>)
    ensures
        match r {
            Some(file) => file_of(name@) == Some(file@),
            None => file_of(name@) is None,
        },
{
    if same_text(name, "ipc_master") {
        Some("ipc_master.json")
    } else if same_text(name, "exception_master") {
        Some("exception_master.json")
    } else if same_text(name, "column_alias") {
        Some("column_alias.json")
    } else {
        None
    }
}

/// What is said of a dictionary that there is not.
pub open spec fn unknown_dictionary_message(name: Seq<char>) -> Seq<char> {
    "未知の辞書名です: "@ + name
}

/// Tells the file in which a dictionary is kept, or fails for a name that
/// no dictionary has.
pub fn dictionary_file(name: &str) -> (r: Result<&'static str, AppError>)
    ensures
        match r {
            Ok(file) => file_of(name@) == Some(file@),
            Err(e) => file_of(name@) is None && e.message@ == unknown_dictionary_message(name@),
        },
{
    match dictionary_file_name(name) {
        Some(file) => Ok(file),
        None => {
            let mut message = "未知の辞書名です: ".to_owned();
            message.append(name);
            Err(AppError::new(message.as_str()))
        },
    }
}

/// The name of rule `i`, trimmed.
pub open spec fn rule_name(rules: Seq<IpcMasterRule>, i: int) -> Seq<char> {
    trimmed(rules[i].rule_name@)
}

/// Whether rule `i` has a name that an earlier rule has. Rules without a
/// name are left aside.
pub open spec fn repeats(rules: Seq<IpcMasterRule>, i: int) -> bool {
    rule_name(rules, i).len() > 0 && exists|j: int|
        0 <= j < i && #[trigger] rule_name(rules, j) == rule_name(rules, i)
}

/// The first of the first `n` rules that repeats a name.
pub open spec fn first_repeat(rules: Seq<IpcMasterRule>, n: int) -> Option<int>
    decreases n,
{
    if n <= 0 {
        None
    } else {
        match first_repeat(rules, n - 1) {
            Some(i) => Some(i),
            None => if repeats(rules, n - 1) {
                Some(n - 1)
            } else {
                None
            },
        }
    }
}

/// A rule that repeats a name, with none before it that does, is the
/// first.
pub proof fn lemma_first_repeat_found(rules: Seq<IpcMasterRule>, i: int, n: int)
    requires
        0 <= i < n,
        first_repeat(rules, i) is None,
        repeats(rules, i),
    ensures
        first_repeat(rules, n) == Some(i),
    decreases n - i,
{
    if n > i + 1 {
        lemma_first_repeat_found(rules, i, n - 1);
    }
}

/// What is said of a rule name that occurs twice.
pub open spec fn repeated_name_message(name: Seq<char>) -> Seq<char> {
    "ルール名'"@ + name + "'が重複しています。"@
}

/// Checks that no two rules have the same name, white space around the
/// names aside. The first rule that repeats a name is named in the error.
pub fn check_rule_names(rules: &Vec<IpcMasterRule>) -> (r: Result<(), AppError>)
    ensures
        match r {
            Ok(_) => first_repeat(rules@, rules@.len() as int) is None,
            Err(e) => first_repeat(rules@, rules@.len() as int) is Some && e.message@
                == repeated_name_message(
                rule_name(rules@, first_repeat(rules@, rules@.len() as int)->0),
            ),
        },
{
    let mut seen: StringHashMap<bool> = StringHashMap::new();
    let mut i: usize = 0;
    while i < rules.len()
        invariant
            i <= rules.len(),
            first_repeat(rules@, i as int) is None,
            forall|k: Seq<char>|
                k.len() > 0 ==> (#[trigger] seen@.contains_key(k) <==> exists|j: int|
                    0 <= j < i && #[trigger] rule_name(rules@, j) == k),
        decreases rules.len() - i,
    {
        let name = trim(rules[i].rule_name.as_str());
        let ghost k0 = name@;
        if !name.as_str().is_empty() {
            if seen.contains_key(name.as_str()) {
                let mut message = "ルール名'".to_owned();
                message.append(name.as_str());
                message.append("'が重複しています。");
                proof {
                    lemma_first_repeat_found(rules@, i as int, rules@.len() as int);
                }
                return Err(AppError::new(message.as_str()));
            }
            let ghost before = seen@;
            seen.insert(name, true);
            proof {
                assert forall|k: Seq<char>| k.len() > 0 implies (#[trigger] seen@.contains_key(k)
                    <==> exists|j: int| 0 <= j < i + 1 && #[trigger] rule_name(rules@, j) == k) by {
                    if k == k0 {
                        assert(rule_name(rules@, i as int) == k);
                    } else {
                        assert(before.contains_key(k) == seen@.contains_key(k));
                        if before.contains_key(k) {
                            let j = choose|j: int|
                                0 <= j < i && #[trigger] rule_name(rules@, j) == k;
                            assert(rule_name(rules@, j) == k);
                        }
                        if exists|j: int| 0 <= j < i + 1 && #[trigger] rule_name(rules@, j) == k {
                            let j = choose|j: int|
                                0 <= j < i + 1 && #[trigger] rule_name(rules@, j) == k;
                            assert(j < i);
                        }
                    }
                }
            }
        } else {
            proof {
                assert forall|k: Seq<char>| k.len() > 0 implies (#[trigger] seen@.contains_key(k)
                    <==> exists|j: int| 0 <= j < i + 1 && #[trigger] rule_name(rules@, j) == k) by {
                    if seen@.contains_key(k) {
                        let j = choose|j: int| 0 <= j < i && #[trigger] rule_name(rules@, j) == k;
                        assert(rule_name(rules@, j) == k);
                    }
                    if exists|j: int| 0 <= j < i + 1 && #[trigger] rule_name(rules@, j) == k {
                        let j = choose|j: int|
                            0 <= j < i + 1 && #[trigger] rule_name(rules@, j) == k;
                        assert(j < i);
                    }
                }
            }
        }
        i += 1;
    }
    Ok(())
}

} // verus!

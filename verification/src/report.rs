//! Assembly of the values filled into the report template: one entry per
//! placeholder, with counts rendered in decimal and per-level visibility
//! flags. Writing the HTML file itself is left to the surrounding
//! application.

use vstd::prelude::*;
use vstd::string::*;

use crate::analyse::loglevel::{LogLevel, LogLevelCountMap};
use crate::strutil::{i32_to_string, replace_all, spec_i32_string, spec_replace};

verus! {

/// The visibility class for a level's report section: hidden exactly when
/// the level never occurred.
pub open spec fn spec_visibility(count: int) -> Seq<char> {
    if count <= 0 {
        "hide"@
    } else {
        ""@
    }
}

/// The attribution shown in the report: nothing without a non-empty user
/// name.
pub open spec fn spec_by_user(user: Option<String>) -> Seq<char> {
    match user {
        Option::None => ""@,
        Option::Some(u) => if u@.len() == 0 {
            ""@
        } else {
            " by "@ + u@
        },
    }
}

/// The value for a visibility placeholder.
fn visibility_value(count: i32) -> (r: String)
    ensures
        r@ == spec_visibility(count as int),
{
    proof {
        reveal_strlit("");
    }
    if count <= 0 {
        String::from_str("hide")
    } else {
        String::new()
    }
}

/// One placeholder pair, built from string slices.
fn pair(key: &str, value: String) -> (r: (String, String))
    ensures
        r.0@ == key@,
        r.1@ == value@,
{
    (String::from_str(key), value)
}

/// The placeholder table for the report: the file and event totals, one
/// count and one visibility flag per severity level in severity order, and
/// the attribution line.
pub fn prepare_placeholder_map(
    no_of_files: i32,
    no_of_logs: i32,
    combined_loglevel_count: &LogLevelCountMap,
    user: Option<String>,
) -> (r: Vec<(String, String)>)
    requires
        combined_loglevel_count.wf(),
    ensures
        r@.len() == 21,
        r@[0].0@ == "NO_OF_FILES"@ && r@[0].1@ == spec_i32_string(no_of_files as int),
        r@[1].0@ == "NO_OF_LOGS"@ && r@[1].1@ == spec_i32_string(no_of_logs as int),
        r@[2].0@ == "NO_OF_ALERT"@ && r@[2].1@ == spec_i32_string(
            combined_loglevel_count.spec_get(LogLevel::Alert),
        ),
        r@[3].0@ == "NO_OF_CRITICAL"@ && r@[3].1@ == spec_i32_string(
            combined_loglevel_count.spec_get(LogLevel::Critical),
        ),
        r@[4].0@ == "NO_OF_EMERGENCY"@ && r@[4].1@ == spec_i32_string(
            combined_loglevel_count.spec_get(LogLevel::Emergency),
        ),
        r@[5].0@ == "NO_OF_ERROR"@ && r@[5].1@ == spec_i32_string(
            combined_loglevel_count.spec_get(LogLevel::Error),
        ),
        r@[6].0@ == "NO_OF_WARNING"@ && r@[6].1@ == spec_i32_string(
            combined_loglevel_count.spec_get(LogLevel::Warning),
        ),
        r@[7].0@ == "NO_OF_NOTICE"@ && r@[7].1@ == spec_i32_string(
            combined_loglevel_count.spec_get(LogLevel::Notice),
        ),
        r@[8].0@ == "NO_OF_INFO"@ && r@[8].1@ == spec_i32_string(
            combined_loglevel_count.spec_get(LogLevel::Info),
        ),
        r@[9].0@ == "NO_OF_DEBUG"@ && r@[9].1@ == spec_i32_string(
            combined_loglevel_count.spec_get(LogLevel::Debug),
        ),
        r@[10].0@ == "NO_OF_OTHERS"@ && r@[10].1@ == spec_i32_string(
            combined_loglevel_count.spec_get(LogLevel::Others),
        ),
        r@[11].0@ == "ALERT_VISIBILITY"@ && r@[11].1@ == spec_visibility(
            combined_loglevel_count.spec_get(LogLevel::Alert),
        ),
        r@[12].0@ == "CRITICAL_VISIBILITY"@ && r@[12].1@ == spec_visibility(
            combined_loglevel_count.spec_get(LogLevel::Critical),
        ),
        r@[13].0@ == "EMERGENCY_VISIBILITY"@ && r@[13].1@ == spec_visibility(
            combined_loglevel_count.spec_get(LogLevel::Emergency),
        ),
        r@[14].0@ == "ERROR_VISIBILITY"@ && r@[14].1@ == spec_visibility(
            combined_loglevel_count.spec_get(LogLevel::Error),
        ),
        r@[15].0@ == "WARNING_VISIBILITY"@ && r@[15].1@ == spec_visibility(
            combined_loglevel_count.spec_get(LogLevel::Warning),
        ),
        r@[16].0@ == "NOTICE_VISIBILITY"@ && r@[16].1@ == spec_visibility(
            combined_loglevel_count.spec_get(LogLevel::Notice),
        ),
        r@[17].0@ == "INFO_VISIBILITY"@ && r@[17].1@ == spec_visibility(
            combined_loglevel_count.spec_get(LogLevel::Info),
        ),
        r@[18].0@ == "DEBUG_VISIBILITY"@ && r@[18].1@ == spec_visibility(
            combined_loglevel_count.spec_get(LogLevel::Debug),
        ),
        r@[19].0@ == "OTHERS_VISIBILITY"@ && r@[19].1@ == spec_visibility(
            combined_loglevel_count.spec_get(LogLevel::Others),
        ),
        r@[20].0@ == "BY_USER"@ && r@[20].1@ == spec_by_user(user),
{
    let mut r: Vec<(String, String)> = Vec::new();
    r.push(pair("NO_OF_FILES", i32_to_string(no_of_files)));
    r.push(pair("NO_OF_LOGS", i32_to_string(no_of_logs)));
    r.push(
        pair("NO_OF_ALERT", i32_to_string(combined_loglevel_count.get(&LogLevel::Alert))),
    );
    r.push(
        pair("NO_OF_CRITICAL", i32_to_string(combined_loglevel_count.get(&LogLevel::Critical))),
    );
    r.push(
        pair("NO_OF_EMERGENCY", i32_to_string(combined_loglevel_count.get(&LogLevel::Emergency))),
    );
    r.push(
        pair("NO_OF_ERROR", i32_to_string(combined_loglevel_count.get(&LogLevel::Error))),
    );
    r.push(
        pair("NO_OF_WARNING", i32_to_string(combined_loglevel_count.get(&LogLevel::Warning))),
    );
    r.push(
        pair("NO_OF_NOTICE", i32_to_string(combined_loglevel_count.get(&LogLevel::Notice))),
    );
    r.push(pair("NO_OF_INFO", i32_to_string(combined_loglevel_count.get(&LogLevel::Info))));
    r.push(
        pair("NO_OF_DEBUG", i32_to_string(combined_loglevel_count.get(&LogLevel::Debug))),
    );
    r.push(
        pair("NO_OF_OTHERS", i32_to_string(combined_loglevel_count.get(&LogLevel::Others))),
    );
    r.push(
        pair(
            "ALERT_VISIBILITY",
            visibility_value(combined_loglevel_count.get(&LogLevel::Alert)),
        ),
    );
    r.push(
        pair(
            "CRITICAL_VISIBILITY",
            visibility_value(combined_loglevel_count.get(&LogLevel::Critical)),
        ),
    );
    r.push(
        pair(
            "EMERGENCY_VISIBILITY",
            visibility_value(combined_loglevel_count.get(&LogLevel::Emergency)),
        ),
    );
    r.push(
        pair(
            "ERROR_VISIBILITY",
            visibility_value(combined_loglevel_count.get(&LogLevel::Error)),
        ),
    );
    r.push(
        pair(
            "WARNING_VISIBILITY",
            visibility_value(combined_loglevel_count.get(&LogLevel::Warning)),
        ),
    );
    r.push(
        pair(
            "NOTICE_VISIBILITY",
            visibility_value(combined_loglevel_count.get(&LogLevel::Notice)),
        ),
    );
    r.push(
        pair(
            "INFO_VISIBILITY",
            visibility_value(combined_loglevel_count.get(&LogLevel::Info)),
        ),
    );
    r.push(
        pair(
            "DEBUG_VISIBILITY",
            visibility_value(combined_loglevel_count.get(&LogLevel::Debug)),
        ),
    );
    r.push(
        pair(
            "OTHERS_VISIBILITY",
            visibility_value(combined_loglevel_count.get(&LogLevel::Others)),
        ),
    );
    let by_user: String = match &user {
        Option::None => String::new(),
        Option::Some(u) => {
            if u.as_str().is_empty() {
                String::new()
            } else {
                String::from_str(" by ").concat(u.as_str())
            }
        },
    };
    proof {
        reveal_strlit("");
        assert(by_user@ == spec_by_user(user));
    }
    r.push(pair("BY_USER", by_user));
    r
}

/// The wrapped form a placeholder key takes inside the template text.
pub open spec fn spec_wrap_key(key: Seq<char>) -> Seq<char> {
    "{#"@ + key + "#}"@
}

/// The template text with the first `i` placeholder pairs applied in order:
/// each wrapped key replaced everywhere by its value.
pub open spec fn spec_apply_placeholders(
    text: Seq<char>,
    pairs: Seq<(String, String)>,
    i: int,
) -> Seq<char>
    decreases i,
{
    if i <= 0 {
        text
    } else {
        spec_replace(
            spec_apply_placeholders(text, pairs, i - 1),
            spec_wrap_key(pairs[i - 1].0@),
            pairs[i - 1].1@,
        )
    }
}

/// Replaces, in order, every placeholder of the table by its value: each key
/// `K` stands in the text as `{#K#}`.
pub fn replace_placeholders(text: String, value_map: &Vec<(String, String)>) -> (r: String)
    ensures
        r@ == spec_apply_placeholders(text@, value_map@, value_map@.len() as int),
{
    let n = value_map.len();
    let mut replaced_text = text;
    let mut i: usize = 0;
    while i < n
        invariant
            0 <= i <= n,
            n == value_map@.len(),
            replaced_text@ == spec_apply_placeholders(text@, value_map@, i as int),
        decreases n - i,
    {
        let p = &value_map[i];
        let mut from = String::from_str("{#");
        from.append(p.0.as_str());
        from.append("#}");
        proof {
            reveal_strlit("{#");
            assert(from@ == spec_wrap_key(p.0@));
            assert(from@.len() >= 1);
        }
        replaced_text = replace_all(replaced_text.as_str(), from.as_str(), p.1.as_str());
        i = i + 1;
    }
    replaced_text
}

} // verus!

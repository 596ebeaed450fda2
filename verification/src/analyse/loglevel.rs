//! Severity levels, classification of raw severity tokens, and the
//! fully-populated per-level count tables used by the aggregation stages.

use vstd::prelude::*;
use vstd::string::*;

verus! {

/// The closed set of severity levels, ordered by conventional syslog
/// severity (`Emergency` most severe). Tokens that match no known synonym
/// are classified as `Others`.
#[derive(Debug, Hash, PartialEq, Eq, Copy, Clone, Structural)]
pub enum LogLevel {
    Emergency,
    Alert,
    Critical,
    Error,
    Warning,
    Notice,
    Info,
    Debug,
    Others,
}

/// The position of a level in the count tables, following the severity order
/// of the enumeration.
pub open spec fn level_index(level: LogLevel) -> int {
    match level {
        LogLevel::Emergency => 0,
        LogLevel::Alert => 1,
        LogLevel::Critical => 2,
        LogLevel::Error => 3,
        LogLevel::Warning => 4,
        LogLevel::Notice => 5,
        LogLevel::Info => 6,
        LogLevel::Debug => 7,
        LogLevel::Others => 8,
    }
}

impl LogLevel {
    /// The position of this level in the count tables.
    pub fn index(&self) -> (i: usize)
        ensures
            i == level_index(*self),
    {
        match self {
            LogLevel::Emergency => 0,
            LogLevel::Alert => 1,
            LogLevel::Critical => 2,
            LogLevel::Error => 3,
            LogLevel::Warning => 4,
            LogLevel::Notice => 5,
            LogLevel::Info => 6,
            LogLevel::Debug => 7,
            LogLevel::Others => 8,
        }
    }
}

/// The level sitting at a table position; inverse of `level_index`.
pub open spec fn level_of_index(i: int) -> LogLevel {
    if i == 0 {
        LogLevel::Emergency
    } else if i == 1 {
        LogLevel::Alert
    } else if i == 2 {
        LogLevel::Critical
    } else if i == 3 {
        LogLevel::Error
    } else if i == 4 {
        LogLevel::Warning
    } else if i == 5 {
        LogLevel::Notice
    } else if i == 6 {
        LogLevel::Info
    } else if i == 7 {
        LogLevel::Debug
    } else {
        LogLevel::Others
    }
}

/// Every level's index points back at the level itself.
pub proof fn lemma_level_index_bijective(level: LogLevel)
    ensures
        0 <= level_index(level) < 9,
        level_of_index(level_index(level)) == level,
{
}

/// Every table position points back at itself through its level.
pub proof fn lemma_index_level_bijective(i: int)
    requires
        0 <= i < 9,
    ensures
        level_index(level_of_index(i)) == i,
{
}

/// Whether `c` equals the ASCII character `u` up to ASCII case: `u` is
/// expected to be an upper-case letter or a non-letter.
pub open spec fn char_matches_upper(c: char, u: char) -> bool {
    c == u || (97 <= c as u32 <= 122 && u as u32 == c as u32 - 32)
}

/// Case-insensitive (ASCII) equality of a character sequence against an
/// upper-case reference sequence.
pub open spec fn eq_ignore_ascii_upper(s: Seq<char>, upper: Seq<char>) -> bool {
    s.len() == upper.len() && forall|i: int|
        0 <= i < s.len() ==> char_matches_upper(s[i], #[trigger] upper[i])
}

/// The synonym table: which level a raw severity token names, compared
/// without regard to ASCII case; unknown tokens fall to `Others`.
pub open spec fn spec_to_loglevel(s: Seq<char>) -> LogLevel {
    if eq_ignore_ascii_upper(s, "INFO"@) || eq_ignore_ascii_upper(s, "INFORMATION"@) {
        LogLevel::Info
    } else if eq_ignore_ascii_upper(s, "DEBUG"@) {
        LogLevel::Debug
    } else if eq_ignore_ascii_upper(s, "WARNING"@) || eq_ignore_ascii_upper(s, "WARN"@) {
        LogLevel::Warning
    } else if eq_ignore_ascii_upper(s, "ERROR"@) {
        LogLevel::Error
    } else if eq_ignore_ascii_upper(s, "NOTICE"@) {
        LogLevel::Notice
    } else if eq_ignore_ascii_upper(s, "CRITICAL"@) {
        LogLevel::Critical
    } else if eq_ignore_ascii_upper(s, "ALERT"@) {
        LogLevel::Alert
    } else if eq_ignore_ascii_upper(s, "EMERGENCY"@) {
        LogLevel::Emergency
    } else {
        LogLevel::Others
    }
}

/// Compares `s` against an upper-case reference token without regard to
/// ASCII case.
fn eq_ignore_case(s: &str, upper: &str) -> (r: bool)
    ensures
        r == eq_ignore_ascii_upper(s@, upper@),
{
    let n = s.unicode_len();
    if n != upper.unicode_len() {
        return false;
    }
    let mut i: usize = 0;
    while i < n
        invariant
            0 <= i <= n,
            n == s@.len(),
            n == upper@.len(),
            forall|j: int| 0 <= j < i ==> char_matches_upper(s@[j], #[trigger] upper@[j]),
        decreases n - i,
    {
        let c = s.get_char(i);
        let u = upper.get_char(i);
        let cv = c as u32;
        let uv = u as u32;
        if !(cv == uv || (97 <= cv && cv <= 122 && cv == uv + 32)) {
            assert(!char_matches_upper(s@[i as int], upper@[i as int]));
            return false;
        }
        i += 1;
    }
    true
}

/// Classifies a raw severity token into a level by case-insensitive matching
/// against the synonym table; tokens that match nothing map to `Others`.
pub fn to_loglevel(loglevel: &str) -> (r: LogLevel)
    ensures
        r == spec_to_loglevel(loglevel@),
{
    if eq_ignore_case(loglevel, "INFO") || eq_ignore_case(loglevel, "INFORMATION") {
        LogLevel::Info
    } else if eq_ignore_case(loglevel, "DEBUG") {
        LogLevel::Debug
    } else if eq_ignore_case(loglevel, "WARNING") || eq_ignore_case(loglevel, "WARN") {
        LogLevel::Warning
    } else if eq_ignore_case(loglevel, "ERROR") {
        LogLevel::Error
    } else if eq_ignore_case(loglevel, "NOTICE") {
        LogLevel::Notice
    } else if eq_ignore_case(loglevel, "CRITICAL") {
        LogLevel::Critical
    } else if eq_ignore_case(loglevel, "ALERT") {
        LogLevel::Alert
    } else if eq_ignore_case(loglevel, "EMERGENCY") {
        LogLevel::Emergency
    } else {
        LogLevel::Others
    }
}

/// One scalar count per severity level, always populated for all nine levels.
pub struct LogLevelCountMap {
    pub counts: Vec<i32>,
}

impl LogLevelCountMap {
    /// The table holds exactly one entry per level.
    pub open spec fn wf(self) -> bool {
        self.counts@.len() == 9
    }

    /// The count recorded for `level`.
    pub open spec fn spec_get(self, level: LogLevel) -> int {
        self.counts@[level_index(level)] as int
    }

    /// Reads the count recorded for `level`.
    pub fn get(&self, level: &LogLevel) -> (c: i32)
        requires
            self.wf(),
        ensures
            c as int == self.spec_get(*level),
    {
        self.counts[level.index()]
    }
}

/// A fresh count table with every one of the nine levels present and zero;
/// the identity accumulator for counting.
pub fn make_loglevel_count_map() -> (m: LogLevelCountMap)
    ensures
        m.wf(),
        forall|l: LogLevel| #[trigger] m.spec_get(l) == 0,
{
    let mut counts: Vec<i32> = Vec::new();
    let mut i: usize = 0;
    while i < 9
        invariant
            counts@.len() == i,
            0 <= i <= 9,
            forall|j: int| 0 <= j < i ==> counts@[j] == 0i32,
        decreases 9 - i,
    {
        counts.push(0);
        i += 1;
    }
    LogLevelCountMap { counts }
}

/// One sequence of per-bucket counts per severity level, always populated
/// for all nine levels.
pub struct LogLevelCountVecMap {
    pub counts: Vec<Vec<i32>>,
}

impl LogLevelCountVecMap {
    /// The table holds exactly one row per level.
    pub open spec fn wf(self) -> bool {
        self.counts@.len() == 9
    }

    /// The row of per-bucket counts recorded for `level`.
    pub open spec fn row(self, level: LogLevel) -> Seq<i32> {
        self.counts@[level_index(level)]@
    }

    /// Reads the row of per-bucket counts recorded for `level`.
    pub fn get_row(&self, level: &LogLevel) -> (row: &Vec<i32>)
        requires
            self.wf(),
        ensures
            row@ == self.row(*level),
    {
        &self.counts[level.index()]
    }
}

/// A fresh table of per-bucket count rows with every one of the nine levels
/// present and empty.
pub fn make_loglevel_count_vec_map() -> (m: LogLevelCountVecMap)
    ensures
        m.wf(),
        forall|l: LogLevel| (#[trigger] m.row(l)).len() == 0,
{
    let mut counts: Vec<Vec<i32>> = Vec::new();
    let mut i: usize = 0;
    while i < 9
        invariant
            counts@.len() == i,
            0 <= i <= 9,
            forall|j: int| 0 <= j < i ==> (#[trigger] counts@[j])@.len() == 0,
        decreases 9 - i,
    {
        counts.push(Vec::new());
        i += 1;
    }
    LogLevelCountVecMap { counts }
}

} // verus!

//! The search history: entries, filtering them, and where they are kept.
use crate::storage::{path_join, rns_dir, spec_path_join};
use crate::text::{
    chars_eq_ignore_ascii_case, chars_of, contains_exec, contains_seq, eq_ignore_ascii_case,
    spec_to_lowercase, str_to_lowercase, string_of, trim_ws, trim_ws_exec,
};
use vstd::prelude::*;

verus! {

/// One recorded search.
#[derive(Debug, Clone, PartialEq, Eq)]
pub struct HistoryEntry {
    pub timestamp_epoch_secs: u64,
    pub query: String,
    pub ranker: String,
    pub filter: String,
    pub top: usize,
    pub result_count: usize,
    pub elapsed_micros: u128,
}

/// The clock's time, `std::time::SystemTime`.
#[verifier::external_type_specification]
#[verifier::external_body]
pub struct ExSystemTime(std::time::SystemTime);

/// `SystemTime::now`: the system clock's current time. Nothing is stated of
/// it: it depends on the clock.
#[verifier::external_body]
fn system_time_now() -> std::time::SystemTime {
    std::time::SystemTime::now()
}

/// `SystemTime::duration_since(UNIX_EPOCH)`: the time elapsed since the Unix
/// epoch, `None` where the clock reads a time before it. Nothing is stated
/// of the value: it depends on the clock.
#[verifier::external_body]
fn duration_since_epoch(t: &std::time::SystemTime) -> Option<std::time::Duration> {
    t.duration_since(std::time::UNIX_EPOCH).ok()
}

/// `Duration::as_secs`: the whole seconds of a duration. A duration is
/// opaque here, so nothing is stated of the result.
#[verifier::external_body]
fn duration_as_secs(d: &std::time::Duration) -> u64 {
    d.as_secs()
}

/// Seconds since the Unix epoch by the system clock, or 0 when the clock is
/// set before it.
fn current_epoch_seconds() -> u64 {
    let now = system_time_now();
    match duration_since_epoch(&now) {
        Some(d) => duration_as_secs(&d),
        None => 0,
    }
}

impl HistoryEntry {
    /// An entry for a search made now.
    pub fn new(
        query: String,
        ranker: String,
        filter: String,
        top: usize,
        result_count: usize,
        elapsed_micros: u128,
    ) -> (r: Self)
        ensures
            r.query == query,
            r.ranker == ranker,
            r.filter == filter,
            r.top == top,
            r.result_count == result_count,
            r.elapsed_micros == elapsed_micros,
    {
        HistoryEntry {
            timestamp_epoch_secs: current_epoch_seconds(),
            query,
            ranker,
            filter,
            top,
            result_count,
            elapsed_micros,
        }
    }
}

/// A filter text after normalizing: trimmed and lowercased, none when empty.
pub open spec fn normalized_filter_text(value: Option<Seq<char>>) -> Option<Seq<char>> {
    match value {
        Some(v) => if spec_to_lowercase(trim_ws(v)).len() == 0 {
            None
        } else {
            Some(spec_to_lowercase(trim_ws(v)))
        },
        None => None,
    }
}

/// Whether an entry passes a filter with the given keyword and ranker: the
/// lowercased query contains the keyword, and the ranker equals the given
/// one up to ASCII case; an absent part lets every entry through.
pub open spec fn history_matches(
    keyword: Option<Seq<char>>,
    ranker: Option<Seq<char>>,
    entry: HistoryEntry,
) -> bool {
    &&& (keyword matches Some(k) ==> contains_seq(spec_to_lowercase(entry.query@), k))
    &&& (ranker matches Some(r) ==> eq_ignore_ascii_case(entry.ranker@, r))
}

/// A filter on history entries by query keyword and ranker.
#[derive(Debug, Clone, Default, PartialEq, Eq)]
pub struct HistoryFilter {
    query_keyword: Option<String>,
    ranker: Option<String>,
}

/// The normalized form of a filter text (`normalize_filter_text`).
fn normalize_filter_text(value: Option<String>) -> (r: Option<String>)
    ensures
        r matches Some(s) ==> normalized_filter_text(
            match value {
                Some(v) => Some(v@),
                None => None,
            },
        ) == Some(s@),
        r is None ==> normalized_filter_text(
            match value {
                Some(v) => Some(v@),
                None => None,
            },
        ) is None,
        r is None <==> match value {
            Some(v) => trim_ws(v@).len() == 0,
            None => true,
        },
{
    match value {
        Some(v) => {
            let trimmed = string_of(&trim_ws_exec(&chars_of(v.as_str())));
            let text = str_to_lowercase(trimmed.as_str());
            if chars_of(text.as_str()).len() == 0 {
                None
            } else {
                Some(text)
            }
        },
        None => None,
    }
}

impl HistoryFilter {
    /// The keyword the filter keeps.
    pub closed spec fn keyword_of(&self) -> Option<Seq<char>> {
        match self.query_keyword {
            Some(k) => Some(k@),
            None => None,
        }
    }

    /// The ranker name the filter keeps.
    pub closed spec fn ranker_of(&self) -> Option<Seq<char>> {
        match self.ranker {
            Some(k) => Some(k@),
            None => None,
        }
    }

    /// A filter on a query keyword and a ranker name, each trimmed and
    /// lowercased; an empty one filters nothing.
    pub fn new(query_keyword: Option<String>, ranker: Option<String>) -> (r: Self)
        ensures
            r.keyword_of() == normalized_filter_text(
                match query_keyword {
                    Some(v) => Some(v@),
                    None => None,
                },
            ),
            r.ranker_of() == normalized_filter_text(
                match ranker {
                    Some(v) => Some(v@),
                    None => None,
                },
            ),
            r.keyword_of() is None <==> match query_keyword {
                Some(v) => trim_ws(v@).len() == 0,
                None => true,
            },
            r.ranker_of() is None <==> match ranker {
                Some(v) => trim_ws(v@).len() == 0,
                None => true,
            },
    {
        HistoryFilter {
            query_keyword: normalize_filter_text(query_keyword),
            ranker: normalize_filter_text(ranker),
        }
    }

    /// The filter restricts anything.
    pub fn is_active(&self) -> (r: bool)
        ensures
            r == (self.keyword_of() is Some || self.ranker_of() is Some),
    {
        self.query_keyword.is_some() || self.ranker.is_some()
    }

    /// Whether `entry` passes the filter.
    pub fn matches(&self, entry: &HistoryEntry) -> (r: bool)
        ensures
            r == history_matches(self.keyword_of(), self.ranker_of(), *entry),
    {
        let query_matches = match &self.query_keyword {
            Some(keyword) => {
                let lower = str_to_lowercase(entry.query.as_str());
                contains_exec(&chars_of(lower.as_str()), &chars_of(keyword.as_str()))
            },
            None => true,
        };
        let ranker_matches = match &self.ranker {
            Some(ranker) => chars_eq_ignore_ascii_case(
                &chars_of(entry.ranker.as_str()),
                &chars_of(ranker.as_str()),
            ),
            None => true,
        };
        query_matches && ranker_matches
    }
}

/// The entries that pass the filter, in their order.
pub fn filter_history<'a>(entries: &'a [HistoryEntry], filter: &HistoryFilter) -> (r: Vec<
    &'a HistoryEntry,
>)
    ensures
        r@.map_values(|e: &HistoryEntry| *e) == entries@.filter(
            |e: HistoryEntry| history_matches(filter.keyword_of(), filter.ranker_of(), e),
        ),
{
    let ghost pred = |e: HistoryEntry| history_matches(filter.keyword_of(), filter.ranker_of(), e);
    let mut r: Vec<&'a HistoryEntry> = Vec::new();
    let mut i: usize = 0;
    proof {
        reveal(Seq::filter);
        assert(entries@.take(0).filter(pred) =~= seq![]);
        assert(r@.map_values(|e: &HistoryEntry| *e) =~= seq![]);
    }
    while i < entries.len()
        invariant
            i <= entries@.len(),
            pred == (|e: HistoryEntry| history_matches(filter.keyword_of(), filter.ranker_of(), e)),
            r@.map_values(|e: &HistoryEntry| *e) == entries@.take(i as int).filter(pred),
        decreases entries.len() - i,
    {
        let ghost s = entries@.take(i + 1);
        let ghost before = r@;
        proof {
            reveal(Seq::filter);
            assert(s.drop_last() =~= entries@.take(i as int));
            assert(s.last() == entries@[i as int]);
        }
        if filter.matches(&entries[i]) {
            r.push(&entries[i]);
            assert(r@.map_values(|e: &HistoryEntry| *e) =~= before.map_values(
                |e: &HistoryEntry| *e,
            ).push(entries@[i as int]));
        } else {
            assert(r@ == before);
        }
        i += 1;
    }
    assert(entries@.take(i as int) =~= entries@);
    r
}

/// A filter that is not active keeps every history entry, in order.
pub proof fn lemma_inactive_filter_keeps_all(filter: HistoryFilter, entries: Seq<HistoryEntry>)
    requires
        !(filter.keyword_of() is Some || filter.ranker_of() is Some),
    ensures
        entries.filter(|e: HistoryEntry| history_matches(filter.keyword_of(), filter.ranker_of(), e))
            == entries,
    decreases entries.len(),
{
    let pred = |e: HistoryEntry| history_matches(filter.keyword_of(), filter.ranker_of(), e);
    reveal(Seq::filter);
    if entries.len() > 0 {
        lemma_inactive_filter_keeps_all(filter, entries.drop_last());
        assert(pred(entries.last()));
        assert(entries.drop_last().push(entries.last()) =~= entries);
    } else {
        assert(entries.filter(pred) =~= entries);
    }
}

/// Path of the history file: `.rns/history.json` under the root.
pub fn history_file_path(root: &str) -> (r: String)
    ensures
        r@ == spec_path_join(
            rns_dir(root@),
            seq!['h', 'i', 's', 't', 'o', 'r', 'y', '.', 'j', 's', 'o', 'n'],
        ),
{
    let dir_name = ['.', 'r', 'n', 's'];
    let file_name = ['h', 'i', 's', 't', 'o', 'r', 'y', '.', 'j', 's', 'o', 'n'];
    assert(dir_name@ == seq!['.', 'r', 'n', 's']);
    assert(file_name@ == seq!['h', 'i', 's', 't', 'o', 'r', 'y', '.', 'j', 's', 'o', 'n']);
    let dir = path_join(root, string_of(&dir_name).as_str());
    path_join(dir.as_str(), string_of(&file_name).as_str())
}

} // verus!

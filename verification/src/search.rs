//! Search filters over PBIs and their sprint metadata.
//!
//! A filter matches an item when one of the item's searchable fields (every persisted field, plus
//! the assigned sprint's) contains the pattern, or, in regex mode, has a match of it.
use crate::backlog::{decimal, decimal_text, id_text, BacklogItem, ItemId};
use crate::error::Error;
use crate::sorted::views;
use crate::sprint::Sprint;
use crate::text::{join, join_strings};
use vstd::prelude::*;
use vstd::string::StringSliceAdditionalSpecFns;

verus! {

/// Search interpretation used by list, board, and Kanban filters.
#[derive(Debug, Clone, Copy, PartialEq, Eq, Structural)]
pub enum SearchMode {
    /// Match a literal substring.
    Contains,
    /// Match a regular expression.
    Regex,
}

#[verifier::external_type_specification]
#[verifier::external_body]
pub struct ExRegex(regex::Regex);

/// Whether `regex::Regex::new` accepts `pattern`.
pub uninterp spec fn regex_accepts(pattern: Seq<char>) -> bool;

/// The text of the error `regex::Regex::new` reports for `pattern`.
pub uninterp spec fn regex_error_text(pattern: Seq<char>) -> Seq<char>;

/// Whether the regular expression `pattern` has a match somewhere in `text`.
pub uninterp spec fn regex_finds(pattern: Seq<char>, text: Seq<char>) -> bool;

/// A regular expression together with the pattern it was compiled from.
#[derive(Debug)]
pub struct CompiledPattern {
    source: String,
    regex: regex::Regex,
}

impl CompiledPattern {
    /// The pattern the expression was compiled from.
    pub closed spec fn source(self) -> Seq<char> {
        self.source@
    }
}

/// Compiles `pattern` with `regex::Regex::new`. The contract claims that the call succeeds
/// exactly when `regex_accepts(pattern)`, that a failure is reported with the error's text, and
/// that the compiled expression is kept with its pattern.
#[verifier::external_body]
fn compile_pattern(pattern: &str) -> (r: Result<CompiledPattern, String>)
    ensures
        r is Ok <==> regex_accepts(pattern@),
        r matches Ok(c) ==> c.source() == pattern@,
        r matches Err(e) ==> e@ == regex_error_text(pattern@),
{
    match regex::Regex::new(pattern) {
        Ok(regex) => Ok(CompiledPattern { source: pattern.to_owned(), regex }),
        Err(error) => Err(error.to_string()),
    }
}

/// Runs `regex::Regex::is_match`: whether the compiled expression matches somewhere in `text`.
#[verifier::external_body]
fn pattern_finds(p: &CompiledPattern, text: &str) -> (r: bool)
    ensures
        r == regex_finds(p.source(), text@),
{
    p.regex.is_match(text)
}

/// What `to_rfc3339` prints for the UTC time `ts` nanoseconds after the Unix epoch.
pub uninterp spec fn rfc3339_text(ts: i64) -> Seq<char>;

/// Formats the UTC time `ts` nanoseconds after the epoch with `chrono`'s
/// `DateTime::from_timestamp_nanos` (defined for every `i64`) and `DateTime::to_rfc3339`.
/// The contract claims only that the text is the one `rfc3339_text` names.
#[verifier::external_body]
fn rfc3339(ts: i64) -> (r: String)
    ensures
        r@ == rfc3339_text(ts),
{
    chrono::DateTime::from_timestamp_nanos(ts).to_rfc3339()
}

/// The RFC 3339 text of an optional time, or empty.
pub open spec fn opt_time_text(t: Option<i64>) -> Seq<char> {
    match t {
        Some(ts) => rfc3339_text(ts),
        None => seq![],
    }
}

/// An optional string, or empty.
pub open spec fn opt_text(s: Option<String>) -> Seq<char> {
    match s {
        Some(v) => v@,
        None => seq![],
    }
}

/// The searchable fields of an item: every persisted field, then its sprint's ID, title, goal,
/// state, period, holidays and timestamps.
pub open spec fn searchable_fields_of(item: BacklogItem, sprint: Option<Sprint>) -> Seq<Seq<char>> {
    let own = seq![
        id_text(item.id@),
        item.title@,
        item.status@,
        item.rank@,
        match item.points {
            Some(p) => decimal(p as nat),
            None => seq![],
        },
        join(views(item.labels@), " "@),
        opt_text(item.assignee),
        opt_text(item.sprint),
        match item.parent {
            Some(p) => id_text(p@),
            None => seq![],
        },
        join(item.depends_on@.map_values(|d: ItemId| id_text(d@)), " "@),
        opt_time_text(item.start_at),
        opt_time_text(item.done_at),
        join(views(item.commits@), " "@),
        rfc3339_text(item.created),
        rfc3339_text(item.updated),
        item.body@,
    ];
    match sprint {
        Some(s) => own + seq![
            s.id@,
            s.title@,
            s.goal@,
            s.state.name(),
            opt_time_text(s.start),
            opt_time_text(s.end),
            match s.holiday_days {
                Some(h) => decimal(h as nat),
                None => seq![],
            },
            rfc3339_text(s.created),
            rfc3339_text(s.updated),
        ],
        None => own,
    }
}

fn opt_time(t: Option<i64>) -> (r: String)
    ensures
        r@ == opt_time_text(t),
{
    match t {
        Some(ts) => rfc3339(ts),
        None => String::new(),
    }
}

fn opt_string(s: &Option<String>) -> (r: String)
    ensures
        r@ == opt_text(*s),
{
    match s {
        Some(v) => v.clone(),
        None => String::new(),
    }
}

/// The IDs, as text, joined with spaces.
fn joined_ids(ids: &Vec<ItemId>) -> (r: String)
    ensures
        r@ == join(ids@.map_values(|d: ItemId| id_text(d@)), " "@),
{
    let mut texts: Vec<String> = Vec::new();
    let n = ids.len();
    let mut k: usize = 0;
    while k < n
        invariant
            n == ids@.len(),
            k <= n,
            views(texts@) == ids@.take(k as int).map_values(|d: ItemId| id_text(d@)),
        decreases n - k,
    {
        let ghost before = texts@;
        texts.push(ids[k].to_text());
        assert(views(texts@) =~= ids@.take(k + 1).map_values(|d: ItemId| id_text(d@))) by {
            assert(views(texts@) =~= views(before).push(id_text(ids@[k as int]@)));
        }
        k = k + 1;
    }
    assert(ids@.take(n as int) =~= ids@);
    join_strings(&texts, " ")
}

/// The sprint an optional reference points to.
pub open spec fn opt_sprint(s: Option<&Sprint>) -> Option<Sprint> {
    match s {
        Some(v) => Some(*v),
        None => None,
    }
}

/// The searchable fields of an item and its assigned sprint.
pub fn searchable_fields(item: &BacklogItem, sprint: Option<&Sprint>) -> (fields: Vec<String>)
    ensures
        views(fields@) == searchable_fields_of(*item, opt_sprint(sprint)),
{
    let mut fields: Vec<String> = Vec::new();
    fields.push(item.id.to_text());
    fields.push(item.title.clone());
    fields.push(item.status.clone());
    fields.push(item.rank.clone());
    fields.push(match item.points {
        Some(p) => decimal_text(p),
        None => String::new(),
    });
    fields.push(join_strings(&item.labels, " "));
    fields.push(opt_string(&item.assignee));
    fields.push(opt_string(&item.sprint));
    fields.push(match &item.parent {
        Some(p) => p.to_text(),
        None => String::new(),
    });
    fields.push(joined_ids(&item.depends_on));
    fields.push(opt_time(item.start_at));
    fields.push(opt_time(item.done_at));
    fields.push(join_strings(&item.commits, " "));
    fields.push(rfc3339(item.created));
    fields.push(rfc3339(item.updated));
    fields.push(item.body.clone());
    if let Some(s) = sprint {
        fields.push(s.id.as_str().to_owned());
        fields.push(s.title.clone());
        fields.push(s.goal.clone());
        fields.push(s.state.as_str().to_owned());
        fields.push(opt_time(s.start));
        fields.push(opt_time(s.end));
        fields.push(match s.holiday_days {
            Some(h) => decimal_text(h),
            None => String::new(),
        });
        fields.push(rfc3339(s.created));
        fields.push(rfc3339(s.updated));
    }
    assert(views(fields@) =~= searchable_fields_of(*item, opt_sprint(sprint)));
    fields
}

/// The UTF-8 bytes of `needle` occur together in those of `hay`.
pub open spec fn bytes_contain(hay: Seq<u8>, needle: Seq<u8>) -> bool {
    exists|i: int| 0 <= i && i + needle.len() <= hay.len() && #[trigger] hay.subrange(i, i + needle.len()) == needle
}

fn contains_bytes(hay: &[u8], needle: &[u8]) -> (r: bool)
    ensures
        r == bytes_contain(hay@, needle@),
{
    let n = hay.len();
    let m = needle.len();
    if m > n {
        return false;
    }
    let mut i: usize = 0;
    while i <= n - m
        invariant
            n == hay@.len(),
            m == needle@.len(),
            m <= n,
            i <= n - m + 1,
            forall|j: int| 0 <= j < i ==> #[trigger] hay@.subrange(j, j + m) != needle@,
        decreases n - i,
    {
        let mut k: usize = 0;
        while k < m && hay[i + k] == needle[k]
            invariant
                n == hay@.len(),
                m == needle@.len(),
                i + m <= n,
                k <= m,
                forall|q: int| 0 <= q < k ==> hay@[i + q] == needle@[q],
            decreases m - k,
        {
            k = k + 1;
        }
        if k == m {
            assert(hay@.subrange(i as int, i + m) =~= needle@);
            return true;
        }
        assert(hay@.subrange(i as int, i + m) != needle@) by {
            assert(hay@.subrange(i as int, i + m)[k as int] == hay@[i + k]);
        }
        i = i + 1;
    }
    proof {
        assert forall|j: int| 0 <= j && j + m <= n implies #[trigger] hay@.subrange(j, j + m) != needle@ by {
            assert(j < i);
        }
    }
    false
}

#[derive(Debug)]
enum Matcher {
    Contains(String),
    Regex(CompiledPattern),
}

/// A validated search filter over a PBI and its assigned sprint metadata.
#[derive(Debug)]
pub struct SearchFilter {
    pattern: String,
    mode: SearchMode,
    matcher: Matcher,
}

impl SearchFilter {
    /// The user-supplied pattern.
    pub closed spec fn pattern_view(self) -> Seq<char> {
        self.pattern@
    }

    /// The search mode.
    pub closed spec fn mode_view(self) -> SearchMode {
        self.mode
    }

    /// The filter is what it says: it matches by its mode with its own pattern.
    pub closed spec fn well_formed(self) -> bool {
        match self.matcher {
            Matcher::Contains(p) => self.mode == SearchMode::Contains && p@ == self.pattern@,
            Matcher::Regex(c) => self.mode == SearchMode::Regex && c.source() == self.pattern@,
        }
    }

    /// Whether one field matches the filter.
    pub open spec fn hits(self, field: Seq<char>) -> bool {
        match self.mode_view() {
            SearchMode::Contains => bytes_contain(
                vstd::utf8::encode_utf8(field),
                vstd::utf8::encode_utf8(self.pattern_view()),
            ),
            SearchMode::Regex => regex_finds(self.pattern_view(), field),
        }
    }

    /// Whether one of the searchable fields of the item and its sprint matches the filter.
    pub open spec fn finds(self, item: BacklogItem, sprint: Option<Sprint>) -> bool {
        exists|k: int|
            0 <= k < searchable_fields_of(item, sprint).len() && self.hits(#[trigger] searchable_fields_of(item, sprint)[k])
    }

    /// Create a search filter. `regex = false` performs literal substring matching; with
    /// `regex = true` the pattern must be a regular expression the `regex` crate accepts, or
    /// [`Error::InvalidSearchPattern`] carries the crate's explanation.
    pub fn new(pattern: &str, regex: bool) -> (r: Result<SearchFilter, Error>)
        ensures
            match r {
                Ok(f) => {
                    &&& f.well_formed()
                    &&& f.pattern_view() == pattern@
                    &&& f.mode_view() == if regex {
                        SearchMode::Regex
                    } else {
                        SearchMode::Contains
                    }
                    &&& regex ==> regex_accepts(pattern@)
                },
                Err(e) => {
                    &&& regex
                    &&& !regex_accepts(pattern@)
                    &&& e matches Error::InvalidSearchPattern(t) && t@ == regex_error_text(pattern@)
                },
            },
    {
        if regex {
            match compile_pattern(pattern) {
                Ok(c) => Ok(SearchFilter { pattern: pattern.to_owned(), mode: SearchMode::Regex, matcher: Matcher::Regex(c) }),
                Err(e) => Err(Error::InvalidSearchPattern(e)),
            }
        } else {
            Ok(SearchFilter {
                pattern: pattern.to_owned(),
                mode: SearchMode::Contains,
                matcher: Matcher::Contains(pattern.to_owned()),
            })
        }
    }

    /// Return the user-supplied pattern.
    pub fn pattern(&self) -> (p: &str)
        ensures
            p@ == self.pattern_view(),
    {
        self.pattern.as_str()
    }

    /// Return the selected search mode.
    pub fn mode(&self) -> (m: SearchMode)
        ensures
            m == self.mode_view(),
    {
        self.mode
    }

    /// Whether one field matches the filter.
    fn hit(&self, field: &str) -> (r: bool)
        requires
            self.well_formed(),
        ensures
            r == self.hits(field@),
    {
        match &self.matcher {
            Matcher::Contains(p) => contains_bytes(field.as_bytes(), p.as_str().as_bytes()),
            Matcher::Regex(c) => pattern_finds(c, field),
        }
    }

    /// Return whether the item or its assigned sprint matches this filter: whether one of their
    /// searchable fields does.
    pub fn matches(&self, item: &BacklogItem, sprint: Option<&Sprint>) -> (r: bool)
        requires
            self.well_formed(),
        ensures
            r == exists|k: int|
                0 <= k < searchable_fields_of(*item, opt_sprint(sprint)).len() && self.hits(#[trigger] searchable_fields_of(*item, opt_sprint(sprint))[k]),
    {
        let fields = searchable_fields(item, sprint);
        let ghost fv = views(fields@);
        let n = fields.len();
        let mut k: usize = 0;
        while k < n
            invariant
                n == fields@.len(),
                k <= n,
                fv == views(fields@),
                fv == searchable_fields_of(*item, opt_sprint(sprint)),
                self.well_formed(),
                forall|j: int| 0 <= j < k ==> !self.hits(#[trigger] fv[j]),
            decreases n - k,
        {
            if self.hit(fields[k].as_str()) {
                assert(self.hits(fv[k as int]));
                assert(fv == searchable_fields_of(*item, opt_sprint(sprint)));
                return true;
            }
            k = k + 1;
        }
        assert(fv == searchable_fields_of(*item, opt_sprint(sprint)));
        false
    }
}

} // verus!

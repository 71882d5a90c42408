//! Lenient reading of item and sprint documents: each frontmatter field is taken as it is found
//! (absent, of the wrong type, or present), so that a malformed document can be diagnosed instead
//! of refused.
//!
//! The frontmatter arrives as the values the board reads from its TOML table: text, a list whose
//! entries are text or not, a nested table whose entries are text or not, or any other value.
use crate::doctor::{RawField, RawItemRecord, RawSource, RawSprintRecord, RecordArea};
use toml::Value;
use vstd::prelude::*;

verus! {

/// One frontmatter value, as far as the board reads it.
#[derive(Debug)]
pub enum FrontValue {
    /// A string.
    Text(String),
    /// An array; each entry is its string, or `None` when it is not a string.
    List(Vec<Option<String>>),
    /// A table; each entry is its key and its string, or `None` when it is not a string.
    Table(Vec<(String, Option<String>)>),
    /// Any other value.
    Other,
}

/// What reading a document's frontmatter gave.
#[derive(Debug)]
pub enum FrontmatterRead {
    /// The document does not open with a frontmatter block.
    NoDelimiter,
    /// The block is not valid TOML; the parser's explanation.
    Invalid(String),
    /// The block is valid TOML but not a table.
    NotTable,
    /// The block's table: its keys and values.
    Table(Vec<(String, FrontValue)>),
}

/// A raw field as values: missing, invalid with the reason, or present.
pub open spec fn text_field_view(f: RawField<String>) -> Option<Result<Seq<char>, Seq<char>>> {
    match f {
        RawField::Missing => None,
        RawField::Invalid(m) => Some(Err(m@)),
        RawField::Present(s) => Some(Ok(s@)),
    }
}

/// The value under `key`, the first where several would match.
pub open spec fn entry_of(entries: Seq<(String, FrontValue)>, key: Seq<char>) -> Option<FrontValue>
    decreases entries.len(),
{
    if entries.len() == 0 {
        None
    } else if entries[0].0@ == key {
        Some(entries[0].1)
    } else {
        entry_of(entries.drop_first(), key)
    }
}

/// The string under `key` in a nested table: absent, not a string, or the string.
pub open spec fn nested_of(entries: Seq<(String, Option<String>)>, key: Seq<char>) -> Option<Option<Seq<char>>>
    decreases entries.len(),
{
    if entries.len() == 0 {
        None
    } else if entries[0].0@ == key {
        Some(match entries[0].1 {
            Some(s) => Some(s@),
            None => None,
        })
    } else {
        nested_of(entries.drop_first(), key)
    }
}

/// The message of a field that is not a string.
pub open spec fn not_string(name: Seq<char>) -> Seq<char> {
    "field `"@ + name + "` must be a string"@
}

/// The string field `name`, as read.
pub open spec fn string_field_of(entries: Seq<(String, FrontValue)>, name: Seq<char>) -> Option<Result<Seq<char>, Seq<char>>> {
    match entry_of(entries, name) {
        None => None,
        Some(FrontValue::Text(s)) => Some(Ok(s@)),
        Some(_) => Some(Err(not_string(name))),
    }
}

/// The list of strings field `name`, as read.
pub open spec fn list_field_of(entries: Seq<(String, FrontValue)>, name: Seq<char>) -> Option<Result<Seq<Seq<char>>, Seq<char>>> {
    match entry_of(entries, name) {
        None => None,
        Some(FrontValue::List(vs)) => if forall|k: int| 0 <= k < vs@.len() ==> (#[trigger] vs@[k]) is Some {
            Some(Ok(vs@.map_values(|v: Option<String>| v.unwrap()@)))
        } else {
            Some(Err("field `"@ + name + "` must contain only strings"@))
        },
        Some(_) => Some(Err("field `"@ + name + "` must be an array of strings"@)),
    }
}

/// The action source field, as read: its kind and its sprint, or why it is malformed.
pub open spec fn source_field_of(entries: Seq<(String, FrontValue)>) -> Option<Result<(Seq<char>, Seq<char>), Seq<char>>> {
    match entry_of(entries, "source"@) {
        None => None,
        Some(FrontValue::Table(t)) => match nested_of(t@, "kind"@) {
            None => Some(Err("field `source.kind` is missing"@)),
            Some(None) => Some(Err("field `source.kind` must be a string"@)),
            Some(Some(kind)) => match nested_of(t@, "sprint_id"@) {
                None => Some(Err("field `source.sprint_id` is missing"@)),
                Some(None) => Some(Err("field `source.sprint_id` must be a string"@)),
                Some(Some(sprint)) => Some(Ok((kind, sprint))),
            },
        },
        Some(_) => Some(Err("field `source` must be a table"@)),
    }
}

/// A raw list field as values.
pub open spec fn list_field_view(f: RawField<Vec<String>>) -> Option<Result<Seq<Seq<char>>, Seq<char>>> {
    match f {
        RawField::Missing => None,
        RawField::Invalid(m) => Some(Err(m@)),
        RawField::Present(v) => Some(Ok(crate::sorted::views(v@))),
    }
}

/// A raw source field as values.
pub open spec fn source_field_view(f: RawField<RawSource>) -> Option<Result<(Seq<char>, Seq<char>), Seq<char>>> {
    match f {
        RawField::Missing => None,
        RawField::Invalid(m) => Some(Err(m@)),
        RawField::Present(s) => Some(Ok((s.kind@, s.sprint_id@))),
    }
}

/// The value under `key`.
fn find_entry<'a>(entries: &'a Vec<(String, FrontValue)>, key: &str) -> (r: Option<&'a FrontValue>)
    ensures
        match (r, entry_of(entries@, key@)) {
            (Some(a), Some(b)) => *a == b,
            (None, None) => true,
            _ => false,
        },
{
    let n = entries.len();
    let mut k: usize = 0;
    assert(entries@.skip(0) =~= entries@);
    while k < n
        invariant
            n == entries@.len(),
            k <= n,
            entry_of(entries@, key@) == entry_of(entries@.skip(k as int), key@),
        decreases n - k,
    {
        assert(entries@.skip(k as int)[0] == entries@[k as int]);
        assert(entries@.skip(k as int).drop_first() =~= entries@.skip(k + 1));
        if crate::text::text_eq(entries[k].0.as_str(), key) {
            return Some(&entries[k].1);
        }
        k = k + 1;
    }
    None
}

/// The string under `key` in a nested table.
fn find_nested<'a>(entries: &'a Vec<(String, Option<String>)>, key: &str) -> (r: Option<&'a Option<String>>)
    ensures
        match (r, nested_of(entries@, key@)) {
            (Some(Some(s)), Some(Some(t))) => s@ == t,
            (Some(None), Some(None)) => true,
            (None, None) => true,
            _ => false,
        },
{
    let n = entries.len();
    let mut k: usize = 0;
    assert(entries@.skip(0) =~= entries@);
    while k < n
        invariant
            n == entries@.len(),
            k <= n,
            nested_of(entries@, key@) == nested_of(entries@.skip(k as int), key@),
        decreases n - k,
    {
        assert(entries@.skip(k as int)[0] == entries@[k as int]);
        assert(entries@.skip(k as int).drop_first() =~= entries@.skip(k + 1));
        if crate::text::text_eq(entries[k].0.as_str(), key) {
            return Some(&entries[k].1);
        }
        k = k + 1;
    }
    None
}

/// The string field `name`.
pub fn string_field(entries: &Vec<(String, FrontValue)>, name: &str) -> (r: RawField<String>)
    ensures
        text_field_view(r) == string_field_of(entries@, name@),
{
    match find_entry(entries, name) {
        None => RawField::Missing,
        Some(FrontValue::Text(s)) => RawField::Present(s.clone()),
        Some(_) => {
            proof {
                reveal_strlit("field `");
                reveal_strlit("` must be a string");
            }
            RawField::Invalid(crate::text::cat3("field `", name, "` must be a string"))
        },
    }
}

/// The list of strings field `name`.
pub fn string_list_field(entries: &Vec<(String, FrontValue)>, name: &str) -> (r: RawField<Vec<String>>)
    ensures
        list_field_view(r) == list_field_of(entries@, name@),
{
    proof {
        reveal_strlit("field `");
        reveal_strlit("` must contain only strings");
        reveal_strlit("` must be an array of strings");
    }
    match find_entry(entries, name) {
        None => RawField::Missing,
        Some(FrontValue::List(vs)) => {
            let mut out: Vec<String> = Vec::new();
            let n = vs.len();
            let mut k: usize = 0;
            while k < n
                invariant
                    n == vs@.len(),
                    k <= n,
                    entry_of(entries@, name@) == Some(FrontValue::List(*vs)),
                    forall|q: int| 0 <= q < k ==> (#[trigger] vs@[q]) is Some,
                    crate::sorted::views(out@) == vs@.take(k as int).map_values(|v: Option<String>| v.unwrap()@),
                decreases n - k,
            {
                match &vs[k] {
                    Some(s) => {
                        let ghost before = out@;
                        out.push(s.clone());
                        assert(crate::sorted::views(out@) =~= vs@.take(k + 1).map_values(|v: Option<String>| v.unwrap()@)) by {
                            assert(vs@.take(k + 1) =~= vs@.take(k as int).push(vs@[k as int]));
                            assert(crate::sorted::views(out@) =~= crate::sorted::views(before).push(s@));
                        }
                    },
                    None => {
                        proof {
                            reveal_strlit("field `");
                            reveal_strlit("` must contain only strings");
                            assert(!(vs@[k as int] is Some));
                        }
                        return RawField::Invalid(crate::text::cat3("field `", name, "` must contain only strings"));
                    },
                }
                k = k + 1;
            }
            assert(vs@.take(n as int) =~= vs@);
            RawField::Present(out)
        },
        Some(_) => RawField::Invalid(crate::text::cat3("field `", name, "` must be an array of strings")),
    }
}

/// The action source field.
pub fn source_field(entries: &Vec<(String, FrontValue)>) -> (r: RawField<RawSource>)
    ensures
        source_field_view(r) == source_field_of(entries@),
{
    proof {
        reveal_strlit("source");
        reveal_strlit("kind");
        reveal_strlit("sprint_id");
        reveal_strlit("field `source.kind` is missing");
        reveal_strlit("field `source.kind` must be a string");
        reveal_strlit("field `source.sprint_id` is missing");
        reveal_strlit("field `source.sprint_id` must be a string");
        reveal_strlit("field `source` must be a table");
    }
    match find_entry(entries, "source") {
        None => RawField::Missing,
        Some(FrontValue::Table(t)) => {
            let kind = match find_nested(t, "kind") {
                None => {
                    return RawField::Invalid("field `source.kind` is missing".to_owned());
                },
                Some(None) => {
                    return RawField::Invalid("field `source.kind` must be a string".to_owned());
                },
                Some(Some(k)) => k.clone(),
            };
            let sprint_id = match find_nested(t, "sprint_id") {
                None => {
                    return RawField::Invalid("field `source.sprint_id` is missing".to_owned());
                },
                Some(None) => {
                    return RawField::Invalid("field `source.sprint_id` must be a string".to_owned());
                },
                Some(Some(s)) => s.clone(),
            };
            RawField::Present(RawSource { kind, sprint_id })
        },
        Some(_) => RawField::Invalid("field `source` must be a table".to_owned()),
    }
}

/// Why the frontmatter could not be read at all, if it could not.
pub open spec fn frontmatter_error_of(front: FrontmatterRead) -> Option<Seq<char>> {
    match front {
        FrontmatterRead::NoDelimiter => Some("missing frontmatter delimiter"@),
        FrontmatterRead::Invalid(m) => Some(m@),
        FrontmatterRead::NotTable => Some("frontmatter must be a TOML table"@),
        FrontmatterRead::Table(_) => None,
    }
}

/// The frontmatter's entries: none when it could not be read.
pub open spec fn entries_of(front: FrontmatterRead) -> Seq<(String, FrontValue)> {
    match front {
        FrontmatterRead::Table(e) => e@,
        _ => seq![],
    }
}

/// `r` is the item record `item_record` builds.
pub open spec fn item_record_is(
    r: RawItemRecord,
    location: Seq<char>,
    area: RecordArea,
    filename: Option<Seq<char>>,
    front: FrontmatterRead,
    parsed: Option<crate::backlog::BacklogItem>,
) -> bool {
    &&& r.location@ == location
    &&& r.area == area
    &&& crate::backlog::opt_str(r.filename) == filename
    &&& crate::backlog::opt_str(r.frontmatter_error) == frontmatter_error_of(front)
    &&& text_field_view(r.id) == string_field_of(entries_of(front), "id"@)
    &&& text_field_view(r.status) == string_field_of(entries_of(front), "status"@)
    &&& text_field_view(r.rank) == string_field_of(entries_of(front), "rank"@)
    &&& text_field_view(r.title) == string_field_of(entries_of(front), "title"@)
    &&& text_field_view(r.sprint) == string_field_of(entries_of(front), "sprint"@)
    &&& text_field_view(r.parent) == string_field_of(entries_of(front), "parent"@)
    &&& list_field_view(r.depends_on) == list_field_of(entries_of(front), "depends_on"@)
    &&& source_field_view(r.source) == source_field_of(entries_of(front))
    &&& r.parsed == parsed
}

/// Read an item document's fields. A document whose frontmatter cannot be read has every field
/// missing and says why.
pub fn item_record(
    location: String,
    area: RecordArea,
    filename: Option<String>,
    front: FrontmatterRead,
    parsed: Option<crate::backlog::BacklogItem>,
) -> (r: RawItemRecord)
    ensures
        item_record_is(r, location@, area, crate::backlog::opt_str(filename), front, parsed),
{
    proof {
        reveal_strlit("missing frontmatter delimiter");
        reveal_strlit("frontmatter must be a TOML table");
    }
    let (error, entries): (Option<String>, Vec<(String, FrontValue)>) = match front {
        FrontmatterRead::NoDelimiter => (Some("missing frontmatter delimiter".to_owned()), Vec::new()),
        FrontmatterRead::Invalid(m) => (Some(m), Vec::new()),
        FrontmatterRead::NotTable => (Some("frontmatter must be a TOML table".to_owned()), Vec::new()),
        FrontmatterRead::Table(e) => (None, e),
    };
    assert(entries@ =~= entries_of(front));
    RawItemRecord {
        location,
        area,
        filename,
        frontmatter_error: error,
        id: string_field(&entries, "id"),
        status: string_field(&entries, "status"),
        rank: string_field(&entries, "rank"),
        title: string_field(&entries, "title"),
        sprint: string_field(&entries, "sprint"),
        parent: string_field(&entries, "parent"),
        depends_on: string_list_field(&entries, "depends_on"),
        source: source_field(&entries),
        parsed,
    }
}

/// `r` is the sprint record `sprint_record` builds.
pub open spec fn sprint_record_is(
    r: RawSprintRecord,
    location: Seq<char>,
    front: FrontmatterRead,
    parse_error: Option<Seq<char>>,
    domain_error: Option<Seq<char>>,
) -> bool {
    &&& r.location@ == location
    &&& crate::backlog::opt_str(r.frontmatter_error) == frontmatter_error_of(front)
    &&& text_field_view(r.id) == string_field_of(entries_of(front), "id"@)
    &&& text_field_view(r.state) == string_field_of(entries_of(front), "state"@)
    &&& text_field_view(r.title) == string_field_of(entries_of(front), "title"@)
    &&& crate::backlog::opt_str(r.parse_error) == if frontmatter_error_of(front) is Some {
        None
    } else {
        parse_error
    }
    &&& crate::backlog::opt_str(r.domain_error) == if frontmatter_error_of(front) is Some {
        None
    } else {
        domain_error
    }
}

/// Read a sprint document's fields, with what the strict sprint reader said of it. A document
/// whose frontmatter cannot be read has every field missing and says why.
pub fn sprint_record(
    location: String,
    front: FrontmatterRead,
    parse_error: Option<String>,
    domain_error: Option<String>,
) -> (r: RawSprintRecord)
    ensures
        sprint_record_is(
            r,
            location@,
            front,
            crate::backlog::opt_str(parse_error),
            crate::backlog::opt_str(domain_error),
        ),
{
    proof {
        reveal_strlit("missing frontmatter delimiter");
        reveal_strlit("frontmatter must be a TOML table");
    }
    let readable = match &front {
        FrontmatterRead::Table(_) => true,
        _ => false,
    };
    let (error, entries): (Option<String>, Vec<(String, FrontValue)>) = match front {
        FrontmatterRead::NoDelimiter => (Some("missing frontmatter delimiter".to_owned()), Vec::new()),
        FrontmatterRead::Invalid(m) => (Some(m), Vec::new()),
        FrontmatterRead::NotTable => (Some("frontmatter must be a TOML table".to_owned()), Vec::new()),
        FrontmatterRead::Table(e) => (None, e),
    };
    assert(entries@ =~= entries_of(front));
    RawSprintRecord {
        location,
        frontmatter_error: error,
        id: string_field(&entries, "id"),
        state: string_field(&entries, "state"),
        title: string_field(&entries, "title"),
        parse_error: if readable {
            parse_error
        } else {
            None
        },
        domain_error: if readable {
            domain_error
        } else {
            None
        },
    }
}

// ---------------------------------------------------------------------------------------------
// Reading a document
// ---------------------------------------------------------------------------------------------

/// A frontmatter value as plain values.
pub enum FrontValueView {
    Text(Seq<char>),
    List(Seq<Option<Seq<char>>>),
    Table(Seq<(Seq<char>, Option<Seq<char>>)>),
    Other,
}

/// What reading a frontmatter gave, as plain values.
pub enum FrontReadView {
    NoDelimiter,
    Invalid(Seq<char>),
    NotTable,
    Table(Seq<(Seq<char>, FrontValueView)>),
}


/// A frontmatter value as plain values.
pub open spec fn value_view(v: FrontValue) -> FrontValueView {
    match v {
        FrontValue::Text(s) => FrontValueView::Text(s@),
        FrontValue::List(l) => FrontValueView::List(l@.map_values(|e: Option<String>| crate::backlog::opt_str(e))),
        FrontValue::Table(t) => FrontValueView::Table(
            t@.map_values(|e: (String, Option<String>)| (e.0@, crate::backlog::opt_str(e.1))),
        ),
        FrontValue::Other => FrontValueView::Other,
    }
}

/// What reading a frontmatter gave, as plain values.
pub open spec fn read_view(r: FrontmatterRead) -> FrontReadView {
    match r {
        FrontmatterRead::NoDelimiter => FrontReadView::NoDelimiter,
        FrontmatterRead::Invalid(m) => FrontReadView::Invalid(m@),
        FrontmatterRead::NotTable => FrontReadView::NotTable,
        FrontmatterRead::Table(e) => FrontReadView::Table(
            e@.map_values(|p: (String, FrontValue)| (p.0@, value_view(p.1))),
        ),
    }
}

/// What the TOML parser makes of a frontmatter block: its error message when the block is not
/// TOML, whether the document is a table, and the table's entries (in the parser's table order)
/// with each value read as text, a list, a nested table or something else.
pub uninterp spec fn toml_frontmatter(block: Seq<char>) -> FrontReadView;

/// Parses `block` with `toml::from_str::<toml::Value>` and reads the value: the parser's error
/// text (its `Display`), a value that is not a table, or the table's entries, each a string, an
/// array (entry by entry, strings or not), a nested table (entry by entry, strings or not) or
/// another value. The result is named by `toml_frontmatter`.
#[verifier::external_body]
fn toml_read(block: &str) -> (r: FrontmatterRead)
    ensures
        read_view(r) == toml_frontmatter(block@),
{
    let text = |v: &Value| v.as_str().map(str::to_string);
    match toml::from_str(block) {
        Err(error) => FrontmatterRead::Invalid(error.to_string()),
        Ok(Value::Table(table)) => FrontmatterRead::Table(table.iter().map(|(k, v)| (k.clone(), match v {
            Value::String(s) => FrontValue::Text(s.clone()),
            Value::Array(a) => FrontValue::List(a.iter().map(text).collect()),
            Value::Table(t) => FrontValue::Table(t.iter().map(|(k2, e)| (k2.clone(), text(e))).collect()),
            _ => FrontValue::Other,
        })).collect()),
        _ => FrontmatterRead::NotTable,
    }
}

/// Read a frontmatter block (`None` when the document has none) with the TOML parser.
pub fn read_frontmatter(block: Option<&str>) -> (r: FrontmatterRead)
    ensures
        read_view(r) == match block {
            None => FrontReadView::NoDelimiter,
            Some(b) => toml_frontmatter(b@),
        },
{
    match block {
        None => FrontmatterRead::NoDelimiter,
        Some(b) => toml_read(b),
    }
}

/// In the text after the opening delimiter line, a closing delimiter line starts at `p`: the
/// three characters `+++` alone on their line (the last line may end without a line break).
pub open spec fn closes_at(rest: Seq<char>, p: int) -> bool {
    &&& 0 <= p && p + 3 <= rest.len()
    &&& (p == 0 || rest[p - 1] == '\n')
    &&& rest[p] == '+' && rest[p + 1] == '+' && rest[p + 2] == '+'
    &&& (p + 3 == rest.len() || rest[p + 3] == '\n')
}

/// The first place where a closing delimiter line starts.
pub open spec fn first_close(rest: Seq<char>, p: int) -> bool {
    closes_at(rest, p) && forall|q: int| 0 <= q < p ==> !#[trigger] closes_at(rest, q)
}

/// A document's frontmatter block: the document opens with the line `+++`, and the block is the
/// text after it up to the first later line `+++` (the line break before that line included).
/// `None` when the document does not open so or the block is never closed.
pub open spec fn frontmatter_block_of(doc: Seq<char>) -> Option<Seq<char>> {
    if doc.len() >= 4 && doc[0] == '+' && doc[1] == '+' && doc[2] == '+' && doc[3] == '\n' && exists|p: int|
        first_close(doc.skip(4), p) {
        let p = choose|p: int| first_close(doc.skip(4), p);
        Some(doc.skip(4).take(p))
    } else {
        None
    }
}

/// Whether a closing delimiter line starts at `p` of the text after the opening line.
fn closes_here(doc: &str, n: usize, p: usize) -> (r: bool)
    requires
        n == doc@.len(),
        n >= 4,
        p <= n - 4,
    ensures
        r == closes_at(doc@.skip(4), p as int),
{
    let ghost rest = doc@.skip(4);
    if n - 4 - p < 3 {
        return false;
    }
    let i = p + 4;
    let opens = p == 0 || doc.get_char(i - 1) == '\n';
    let ends = i + 3 == n || doc.get_char(i + 3) == '\n';
    let r = opens && doc.get_char(i) == '+' && doc.get_char(i + 1) == '+' && doc.get_char(i + 2) == '+' && ends;
    proof {
        if p > 0 {
            assert(rest[p - 1] == doc@[i - 1]);
        }
        assert(rest[p as int] == doc@[i as int]);
        assert(rest[p + 1] == doc@[i + 1]);
        assert(rest[p + 2] == doc@[i + 2]);
        if i + 3 < n {
            assert(rest[p + 3] == doc@[i + 3]);
        }
    }
    r
}

/// A document's frontmatter block, as `frontmatter_block_of` says.
pub fn frontmatter_block(document: &str) -> (r: Option<String>)
    ensures
        crate::backlog::opt_str(r) == frontmatter_block_of(document@),
{
    let n = document.unicode_len();
    if !(n >= 4 && document.get_char(0) == '+' && document.get_char(1) == '+' && document.get_char(2) == '+'
        && document.get_char(3) == '\n') {
        return None;
    }
    let ghost rest = document@.skip(4);
    let mut p: usize = 0;
    while p < n - 4
        invariant
            n == document@.len(),
            n >= 4,
            rest == document@.skip(4),
            document@[0] == '+' && document@[1] == '+' && document@[2] == '+' && document@[3] == '\n',
            p <= n - 4,
            forall|q: int| 0 <= q < p ==> !#[trigger] closes_at(rest, q),
        decreases n - 4 - p,
    {
        if closes_here(document, n, p) {
            let block = document.substring_char(4, 4 + p);
            proof {
                assert(first_close(rest, p as int));
                let c = choose|c: int| first_close(rest, c);
                if c < p {
                    assert(!closes_at(rest, c));
                } else if c > p {
                    assert(!closes_at(rest, p as int));
                }
                assert(block@ =~= rest.take(p as int));
            }
            return Some(block.to_string());
        }
        p = p + 1;
    }
    proof {
        assert forall|q: int| !first_close(rest, q) by {
            if 0 <= q < p {
                assert(!closes_at(rest, q));
            }
        }
    }
    None
}

/// The record an item document gives, as `item_record` builds it from the document's frontmatter
/// as the TOML parser reads it.
pub open spec fn document_front(document: Seq<char>) -> FrontReadView {
    match frontmatter_block_of(document) {
        None => FrontReadView::NoDelimiter,
        Some(b) => toml_frontmatter(b),
    }
}

/// The frontmatter of a document, read as `document_front` says.
fn document_frontmatter(document: &str) -> (r: FrontmatterRead)
    ensures
        read_view(r) == document_front(document@),
{
    match frontmatter_block(document) {
        Some(b) => read_frontmatter(Some(b.as_str())),
        None => read_frontmatter(None),
    }
}

/// The record of the item document `document` found at `location`: its frontmatter block as the
/// TOML parser reads it, then each field as `item_record` takes it.
pub fn item_record_from_document(
    location: String,
    area: RecordArea,
    filename: Option<String>,
    document: &str,
    parsed: Option<crate::backlog::BacklogItem>,
) -> (r: RawItemRecord)
    ensures
        exists|front: FrontmatterRead|
            read_view(front) == document_front(document@) && #[trigger] item_record_is(
                r,
                location@,
                area,
                crate::backlog::opt_str(filename),
                front,
                parsed,
            ),
{
    let front = document_frontmatter(document);
    let ghost f = front;
    let ghost name = crate::backlog::opt_str(filename);
    let r = item_record(location, area, filename, front, parsed);
    assert(item_record_is(r, location@, area, name, f, parsed));
    r
}

/// The record of the sprint document `document` found at `location`: its frontmatter block as the
/// TOML parser reads it, then each field as `sprint_record` takes it.
pub fn sprint_record_from_document(
    location: String,
    document: &str,
    parse_error: Option<String>,
    domain_error: Option<String>,
) -> (r: RawSprintRecord)
    ensures
        exists|front: FrontmatterRead|
            read_view(front) == document_front(document@) && #[trigger] sprint_record_is(
                r,
                location@,
                front,
                crate::backlog::opt_str(parse_error),
                crate::backlog::opt_str(domain_error),
            ),
{
    let front = document_frontmatter(document);
    let ghost f = front;
    let ghost pe = crate::backlog::opt_str(parse_error);
    let ghost de = crate::backlog::opt_str(domain_error);
    let r = sprint_record(location, front, parse_error, domain_error);
    assert(sprint_record_is(r, location@, f, pe, de));
    r
}

// ---------------------------------------------------------------------------------------------
// Editing guidance
// ---------------------------------------------------------------------------------------------

/// An item document with `guide` inserted as its own line right after the opening `+++` line.
/// A document whose first line is not exactly `+++` (or that has no line break at all) is left
/// as it is. The first line is `+++` exactly when the text starts with `+++` and a line break.
pub open spec fn guided(markdown: Seq<char>, guide: Seq<char>) -> Seq<char> {
    if markdown.len() >= 4 && markdown.take(4) == seq!['+', '+', '+', '\n'] {
        seq!['+', '+', '+', '\n'] + guide + seq!['\n'] + markdown.skip(4)
    } else {
        markdown
    }
}

/// Inserts the editing guidance (TOML comment lines, so the document still reads back unchanged)
/// right after the frontmatter's opening delimiter.
pub fn with_edit_guidance(markdown: &str, guide: &str) -> (r: String)
    ensures
        r@ == guided(markdown@, guide@),
{
    let n = markdown.unicode_len();
    if n >= 4 && markdown.get_char(0) == '+' && markdown.get_char(1) == '+' && markdown.get_char(2) == '+'
        && markdown.get_char(3) == '\n'
    {
        let rest = markdown.substring_char(4, n);
        let opening = "+++\n";
        let newline = "\n";
        proof {
            reveal_strlit("+++\n");
            reveal_strlit("\n");
            assert(markdown@.take(4) =~= seq!['+', '+', '+', '\n']);
            assert(opening@ =~= seq!['+', '+', '+', '\n']);
            assert(newline@ =~= seq!['\n']);
        }
        crate::text::cat4(opening, guide, newline, rest)
    } else {
        proof {
            if markdown@.len() >= 4 && markdown@.take(4) == seq!['+', '+', '+', '\n'] {
                assert(markdown@.take(4)[0] == markdown@[0]);
                assert(markdown@.take(4)[3] == markdown@[3]);
            }
        }
        markdown.to_string()
    }
}

} // verus!

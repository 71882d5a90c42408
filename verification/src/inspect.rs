//! Classification of integrity issues in the raw records of a board.
//!
//! Each analysis reports, in a fixed order, first what each record shows by itself (in record
//! order) and then what only the records together show: repeated IDs and ranks, references to
//! records that are not there, and reference cycles. Groups are reported in key order.
use crate::backlog::{decimal, decimal_count, id_of_text, id_text, ids_view, IdView, ItemId};
use crate::commits::{lemma_pieces_nonempty, pieces, trim_bounds, trimmed};
use crate::doctor::{
    append_issues, issues_view, make_issue, DoctorIssue, DoctorIssueKind, IssueView, IssuedHistory,
    RawField, RawItemRecord, RawSprintRecord, RecordArea,
};
use crate::grouping::{
    all_groups_in, groups_view, key_order, keyed_groups, keys_view, lemma_all_groups_in, lemma_repeated_in,
    lists_view, members, repeated_groups, repeated_in,
};
use crate::graph::{has_edge, lemma_multiset_views_contains, search_reports};
use crate::sorted::{dedup_sorted, find_sorted, is_strictly_sorted, sort_strings, views};
use crate::sprint::{is_sprint_slug, SprintId, SprintState};
use crate::sprint_record::SprintRecordKind;
use crate::text::{blank, cat, cat3, cat4, debug_text, is_blank, join, join_strings, quoted, text_eq};
use vstd::prelude::*;

verus! {

/// The findings of kind `kind` for each member of a group, all with one detail and repair.
pub open spec fn member_issues(
    kind: DoctorIssueKind,
    locs: Seq<Seq<char>>,
    m: Seq<usize>,
    detail: Seq<char>,
    repair: Seq<char>,
) -> Seq<IssueView> {
    m.map_values(|i: usize| (kind, locs[i as int], detail, repair))
}

/// The locations of a group's members.
pub open spec fn member_locations(locs: Seq<Seq<char>>, m: Seq<usize>) -> Seq<Seq<char>> {
    m.map_values(|i: usize| locs[i as int])
}

/// Report one finding for each member of a group.
fn emit_group(
    out: &mut Vec<DoctorIssue>,
    kind: DoctorIssueKind,
    locs: &Vec<String>,
    m: &Vec<usize>,
    detail: &String,
    repair: &str,
)
    requires
        forall|j: int| 0 <= j < m@.len() ==> #[trigger] m@[j] < locs@.len(),
    ensures
        issues_view(final(out)@) == issues_view(old(out)@) + member_issues(
            kind,
            views(locs@),
            m@,
            detail@,
            repair@,
        ),
{
    let ghost start = out@;
    let n = m.len();
    let mut k: usize = 0;
    while k < n
        invariant
            n == m@.len(),
            k <= n,
            forall|j: int| 0 <= j < m@.len() ==> #[trigger] m@[j] < locs@.len(),
            issues_view(out@) == issues_view(start) + member_issues(
                kind,
                views(locs@),
                m@.take(k as int),
                detail@,
                repair@,
            ),
        decreases n - k,
    {
        let ghost before = out@;
        out.push(make_issue(kind, locs[m[k]].as_str(), detail.clone(), repair));
        proof {
            assert(m@.take(k + 1) =~= m@.take(k as int).push(m@[k as int]));
            assert(issues_view(out@) =~= issues_view(before).push(
                (kind, views(locs@)[m@[k as int] as int], detail@, repair@),
            ));
            assert(member_issues(kind, views(locs@), m@.take(k + 1), detail@, repair@) =~= member_issues(
                kind,
                views(locs@),
                m@.take(k as int),
                detail@,
                repair@,
            ).push((kind, views(locs@)[m@[k as int] as int], detail@, repair@)));
        }
        k = k + 1;
    }
    assert(m@.take(n as int) =~= m@);
}

/// The locations of a group's members, joined with `, `.
fn joined_locations(locs: &Vec<String>, m: &Vec<usize>) -> (r: String)
    requires
        forall|j: int| 0 <= j < m@.len() ==> #[trigger] m@[j] < locs@.len(),
    ensures
        r@ == join(member_locations(views(locs@), m@), ", "@),
{
    let mut parts: Vec<String> = Vec::new();
    let n = m.len();
    let mut k: usize = 0;
    while k < n
        invariant
            n == m@.len(),
            k <= n,
            forall|j: int| 0 <= j < m@.len() ==> #[trigger] m@[j] < locs@.len(),
            views(parts@) == member_locations(views(locs@), m@.take(k as int)),
        decreases n - k,
    {
        let ghost before = parts@;
        parts.push(locs[m[k]].clone());
        proof {
            assert(m@.take(k + 1) =~= m@.take(k as int).push(m@[k as int]));
            assert(views(parts@) =~= views(before).push(locs@[m@[k as int] as int]@));
            assert(member_locations(views(locs@), m@.take(k + 1)) =~= member_locations(
                views(locs@),
                m@.take(k as int),
            ).push(views(locs@)[m@[k as int] as int]));
        }
        k = k + 1;
    }
    assert(m@.take(n as int) =~= m@);
    join_strings(&parts, ", ")
}

// ---------------------------------------------------------------------------------------------
// Sprints
// ---------------------------------------------------------------------------------------------

/// A persisted sprint state name.
pub open spec fn is_state_name(s: Seq<char>) -> bool {
    exists|st: SprintState| #[trigger] st.name() == s
}

/// What a sprint record's state field shows.
pub open spec fn sprint_state_issues(r: RawSprintRecord) -> Seq<IssueView> {
    let loc = r.location@;
    match r.state {
        RawField::Present(s) => if is_state_name(s@) {
            seq![]
        } else {
            seq![
                (
                    DoctorIssueKind::InvalidStatus,
                    loc,
                    "sprint state is invalid: "@ + debug_text(s@),
                    "set state to planned, active, or closed"@,
                ),
            ]
        },
        RawField::Missing => seq![
            (
                DoctorIssueKind::InvalidStatus,
                loc,
                "required sprint field state is missing"@,
                "set state to planned, active, or closed"@,
            ),
        ],
        RawField::Invalid(e) => seq![
            (
                DoctorIssueKind::InvalidStatus,
                loc,
                e@,
                "set state to a string: planned, active, or closed"@,
            ),
        ],
    }
}

/// What a sprint record's title field shows.
pub open spec fn sprint_title_issues(r: RawSprintRecord) -> Seq<IssueView> {
    let loc = r.location@;
    match r.title {
        RawField::Present(t) => if !is_blank(t@) {
            seq![]
        } else {
            seq![
                (
                    DoctorIssueKind::MalformedRecord,
                    loc,
                    "sprint title must not be empty"@,
                    "restore a non-empty title in frontmatter"@,
                ),
            ]
        },
        RawField::Missing => seq![
            (
                DoctorIssueKind::MalformedRecord,
                loc,
                "required sprint field title is missing"@,
                "restore a non-empty title in frontmatter"@,
            ),
        ],
        RawField::Invalid(e) => seq![
            (DoctorIssueKind::MalformedRecord, loc, e@, "set title to a string in frontmatter"@),
        ],
    }
}

/// The state and title fields are present and valid.
pub open spec fn sprint_fields_valid(r: RawSprintRecord) -> bool {
    &&& r.state matches RawField::Present(s) && is_state_name(s@)
    &&& r.title matches RawField::Present(t) && !is_blank(t@)
}

/// What a sprint record shows by itself.
pub open spec fn sprint_record_issues(r: RawSprintRecord) -> Seq<IssueView> {
    let loc = r.location@;
    match r.frontmatter_error {
        Some(e) => seq![
            (
                DoctorIssueKind::MalformedRecord,
                loc,
                "sprint frontmatter is invalid: "@ + e@,
                "restore valid TOML frontmatter with the required sprint fields"@,
            ),
        ],
        None => match r.id {
            RawField::Present(id) => if !is_sprint_slug(id@) {
                seq![
                    (
                        DoctorIssueKind::MalformedRecord,
                        loc,
                        "sprint ID is invalid: "@ + debug_text(id@),
                        "replace the sprint ID with a path-safe non-empty value"@,
                    ),
                ]
            } else {
                sprint_state_issues(r) + sprint_title_issues(r) + (match r.parse_error {
                    Some(e) => if sprint_fields_valid(r) {
                        seq![
                            (
                                DoctorIssueKind::MalformedRecord,
                                loc,
                                "sprint is not readable: "@ + e@,
                                "restore valid Sprint frontmatter values, including RFC3339 timestamps"@,
                            ),
                        ]
                    } else {
                        seq![]
                    },
                    None => seq![],
                }) + (match r.domain_error {
                    Some(e) => seq![
                        (
                            DoctorIssueKind::MalformedRecord,
                            loc,
                            e@,
                            "restore a valid period and Goal, or re-import from a healthy export"@,
                        ),
                    ],
                    None => seq![],
                })
            },
            _ => seq![
                (
                    DoctorIssueKind::MalformedRecord,
                    loc,
                    "required sprint field id is missing"@,
                    "restore the sprint ID in frontmatter and keep the filename aligned"@,
                ),
            ],
        },
    }
}

/// What each sprint record shows by itself, in record order.
pub open spec fn each_sprint_issues(s: Seq<RawSprintRecord>) -> Seq<IssueView>
    decreases s.len(),
{
    if s.len() == 0 {
        seq![]
    } else {
        each_sprint_issues(s.drop_last()) + sprint_record_issues(s.last())
    }
}

/// The ID a sprint record is filed under, when it has a valid one.
pub open spec fn sprint_key(r: RawSprintRecord) -> Option<Seq<Seq<char>>> {
    match (r.frontmatter_error, r.id) {
        (None, RawField::Present(id)) => if is_sprint_slug(id@) {
            Some(seq![id@])
        } else {
            None
        },
        _ => None,
    }
}

/// The IDs the sprint records are filed under.
pub open spec fn sprint_keys(s: Seq<RawSprintRecord>) -> Seq<Option<Seq<Seq<char>>>> {
    Seq::new(s.len(), |i: int| sprint_key(s[i]))
}

/// The sprint records' locations.
pub open spec fn sprint_locations(s: Seq<RawSprintRecord>) -> Seq<Seq<char>> {
    Seq::new(s.len(), |i: int| s[i].location@)
}

fn state_is_valid(s: &str) -> (r: bool)
    ensures
        r == is_state_name(s@),
{
    match SprintState::parse(s) {
        Ok(st) => {
            assert(st.name() == s@);
            true
        },
        Err(_) => false,
    }
}

fn slug_is_valid(s: &String) -> (r: bool)
    ensures
        r == is_sprint_slug(s@),
{
    SprintId::new(s.clone()).is_ok()
}

/// What a sprint record shows by itself.
fn sprint_record_findings(r: &RawSprintRecord) -> (out: Vec<DoctorIssue>)
    ensures
        issues_view(out@) == sprint_record_issues(*r),
{
    let loc = r.location.as_str();
    let mut out: Vec<DoctorIssue> = Vec::new();
    if let Some(e) = &r.frontmatter_error {
        out.push(make_issue(
            DoctorIssueKind::MalformedRecord,
            loc,
            cat("sprint frontmatter is invalid: ", e.as_str()),
            "restore valid TOML frontmatter with the required sprint fields",
        ));
        assert(issues_view(out@) =~= sprint_record_issues(*r));
        return out;
    }
    let id = match &r.id {
        RawField::Present(id) => id,
        _ => {
            out.push(make_issue(
                DoctorIssueKind::MalformedRecord,
                loc,
                "required sprint field id is missing".to_owned(),
                "restore the sprint ID in frontmatter and keep the filename aligned",
            ));
            assert(issues_view(out@) =~= sprint_record_issues(*r));
            return out;
        },
    };
    if !slug_is_valid(id) {
        let q = quoted(id.as_str());
        out.push(make_issue(
            DoctorIssueKind::MalformedRecord,
            loc,
            cat("sprint ID is invalid: ", q.as_str()),
            "replace the sprint ID with a path-safe non-empty value",
        ));
        assert(issues_view(out@) =~= sprint_record_issues(*r));
        return out;
    }
    let mut state_ok = false;
    match &r.state {
        RawField::Present(s) => {
            if state_is_valid(s.as_str()) {
                state_ok = true;
            } else {
                let q = quoted(s.as_str());
                out.push(make_issue(
                    DoctorIssueKind::InvalidStatus,
                    loc,
                    cat("sprint state is invalid: ", q.as_str()),
                    "set state to planned, active, or closed",
                ));
            }
        },
        RawField::Missing => {
            out.push(make_issue(
                DoctorIssueKind::InvalidStatus,
                loc,
                "required sprint field state is missing".to_owned(),
                "set state to planned, active, or closed",
            ));
        },
        RawField::Invalid(e) => {
            out.push(make_issue(
                DoctorIssueKind::InvalidStatus,
                loc,
                e.clone(),
                "set state to a string: planned, active, or closed",
            ));
        },
    }
    let ghost after_state = out@;
    assert(issues_view(after_state) =~= sprint_state_issues(*r));
    let mut title_ok = false;
    match &r.title {
        RawField::Present(t) => {
            if !blank(t.as_str()) {
                title_ok = true;
            } else {
                out.push(make_issue(
                    DoctorIssueKind::MalformedRecord,
                    loc,
                    "sprint title must not be empty".to_owned(),
                    "restore a non-empty title in frontmatter",
                ));
            }
        },
        RawField::Missing => {
            out.push(make_issue(
                DoctorIssueKind::MalformedRecord,
                loc,
                "required sprint field title is missing".to_owned(),
                "restore a non-empty title in frontmatter",
            ));
        },
        RawField::Invalid(e) => {
            out.push(make_issue(
                DoctorIssueKind::MalformedRecord,
                loc,
                e.clone(),
                "set title to a string in frontmatter",
            ));
        },
    }
    let ghost after_title = out@;
    assert(issues_view(after_title) =~= sprint_state_issues(*r) + sprint_title_issues(*r));
    assert(state_ok && title_ok <==> sprint_fields_valid(*r));
    if let Some(e) = &r.parse_error {
        if state_ok && title_ok {
            out.push(make_issue(
                DoctorIssueKind::MalformedRecord,
                loc,
                cat("sprint is not readable: ", e.as_str()),
                "restore valid Sprint frontmatter values, including RFC3339 timestamps",
            ));
        }
    }
    let ghost after_parse = out@;
    if let Some(e) = &r.domain_error {
        out.push(make_issue(
            DoctorIssueKind::MalformedRecord,
            loc,
            e.clone(),
            "restore a valid period and Goal, or re-import from a healthy export",
        ));
    }
    assert(issues_view(out@) =~= sprint_record_issues(*r));
    out
}

/// One finding per record that shares its sprint ID with another, group by group.
fn duplicate_findings(
    out: &mut Vec<DoctorIssue>,
    locs: &Vec<String>,
    groups: &Vec<(Vec<String>, Vec<usize>)>,
    prefix: &str,
    repair: &str,
    Ghost(kvs): Ghost<Seq<Option<Seq<Seq<char>>>>>,
    Ghost(order): Ghost<Seq<Seq<Seq<char>>>>,
)
    requires
        kvs.len() == locs@.len(),
        groups_view(groups@) == repeated_in(kvs, order),
    ensures
        issues_view(final(out)@) == issues_view(old(out)@) + group_issues(
            views(locs@),
            groups_view(groups@),
            prefix@,
            repair@,
        ),
{
    let ghost start = out@;
    let nl = locs.len();
    proof {
        lemma_repeated_in(kvs, order);
    }
    let n = groups.len();
    let mut k: usize = 0;
    while k < n
        invariant
            n == groups@.len(),
            k <= n,
            kvs.len() == locs@.len(),
            groups_view(groups@) == repeated_in(kvs, order),
            forall|k2: int|
                0 <= k2 < repeated_in(kvs, order).len() ==> {
                    let g = #[trigger] repeated_in(kvs, order)[k2];
                    &&& g.1 == members(kvs, g.0)
                    &&& g.1.len() >= 2
                    &&& forall|j: int| 0 <= j < g.1.len() ==> #[trigger] g.1[j] < kvs.len()
                },
            issues_view(out@) == issues_view(start) + group_issues(
                views(locs@),
                groups_view(groups@).take(k as int),
                prefix@,
                repair@,
            ),
        decreases n - k,
    {
        let key = &groups[k].0;
        let m = &groups[k].1;
        proof {
            let g = repeated_in(kvs, order)[k as int];
            assert(groups_view(groups@)[k as int] == (views(key@), m@));
            assert(forall|j: int| 0 <= j < g.1.len() ==> #[trigger] g.1[j] < kvs.len());
            assert(groups_view(groups@).take(k + 1).drop_last() =~= groups_view(groups@).take(k as int));
            assert(groups_view(groups@).take(k + 1).last() == g);
            assert(m@ == g.1);
        }
        let joined = joined_locations(locs, m);
        let name = if key.len() > 0 {
            key[0].as_str()
        } else {
            proof {
                reveal_strlit("");
            }
            ""
        };
        let detail = cat4(prefix, name, " is also present at ", joined.as_str());
        assert(detail@ == prefix@ + (if views(key@).len() > 0 { views(key@)[0] } else { seq![] })
            + " is also present at "@ + join(member_locations(views(locs@), m@), ", "@));
        emit_group(out, DoctorIssueKind::DuplicateId, locs, m, &detail, repair);
        k = k + 1;
    }
    assert(groups_view(groups@).take(n as int) =~= groups_view(groups@));
}

/// One finding per record that shares its ID with another, group by group, with the detail
/// `prefix`, the ID, ` is also present at ` and the group's locations.
pub open spec fn group_issues(
    locs: Seq<Seq<char>>,
    groups: Seq<(Seq<Seq<char>>, Seq<usize>)>,
    prefix: Seq<char>,
    repair: Seq<char>,
) -> Seq<IssueView>
    decreases groups.len(),
{
    if groups.len() == 0 {
        seq![]
    } else {
        let g = groups.last();
        group_issues(locs, groups.drop_last(), prefix, repair) + member_issues(
            DoctorIssueKind::DuplicateId,
            locs,
            g.1,
            prefix + (if g.0.len() > 0 { g.0[0] } else { seq![] }) + " is also present at "@ + join(member_locations(locs, g.1), ", "@),
            repair,
        )
    }
}

/// Findings on the sprint records: what each shows by itself, in record order, then one finding
/// per record that shares its ID with another, the IDs in string order.
pub fn analyze_sprints(sprints: &Vec<RawSprintRecord>) -> (issues: Vec<DoctorIssue>)
    ensures
        exists|order: Seq<Seq<Seq<char>>>|
            key_order(sprint_keys(sprints@), order) && #[trigger] issues_view(issues@)
                == each_sprint_issues(sprints@) + group_issues(
                sprint_locations(sprints@),
                repeated_in(sprint_keys(sprints@), order),
                "sprint ID "@,
                "keep one record for the ID and rename or remove the duplicate manually"@,
            ),
{
    let mut issues: Vec<DoctorIssue> = Vec::new();
    let mut keys: Vec<Option<Vec<String>>> = Vec::new();
    let mut locs: Vec<String> = Vec::new();
    let n = sprints.len();
    let mut i: usize = 0;
    while i < n
        invariant
            n == sprints@.len(),
            i <= n,
            issues_view(issues@) == each_sprint_issues(sprints@.take(i as int)),
            keys_view(keys@) == sprint_keys(sprints@.take(i as int)),
            views(locs@) == sprint_locations(sprints@.take(i as int)),
        decreases n - i,
    {
        let r = &sprints[i];
        let found = sprint_record_findings(r);
        append_issues(&mut issues, found);
        let key: Option<Vec<String>> = if r.frontmatter_error.is_none() {
            match &r.id {
                RawField::Present(id) => if slug_is_valid(id) {
                    let mut one: Vec<String> = Vec::new();
                    one.push(id.clone());
                    Some(one)
                } else {
                    None
                },
                _ => None,
            }
        } else {
            None
        };
        let ghost kb = keys@;
        let ghost lb = locs@;
        keys.push(key);
        locs.push(r.location.clone());
        proof {
            let t = sprints@.take(i + 1);
            assert(t.drop_last() =~= sprints@.take(i as int));
            assert(t.last() == sprints@[i as int]);
            assert(keys_view(keys@) =~= sprint_keys(t)) by {
                assert(keys_view(keys@) =~= keys_view(kb).push(keys_view(keys@)[i as int]));
                match (&r.frontmatter_error, &r.id) {
                    (None, RawField::Present(id)) => {
                        if let Some(one) = key {
                            assert(views(one@) =~= seq![id@]);
                        }
                    },
                    _ => {},
                }
            }
            assert(views(locs@) =~= sprint_locations(t)) by {
                assert(views(locs@) =~= views(lb).push(r.location@));
            }
        }
        i = i + 1;
    }
    proof {
        assert(sprints@.take(n as int) =~= sprints@);
    }
    let groups = repeated_groups(&keys);
    let ghost order = choose|order: Seq<Seq<Seq<char>>>|
        key_order(keys_view(keys@), order) && #[trigger] repeated_in(keys_view(keys@), order) == groups_view(groups@);
    duplicate_findings(
        &mut issues,
        &locs,
        &groups,
        "sprint ID ",
        "keep one record for the ID and rename or remove the duplicate manually",
        Ghost(keys_view(keys@)),
        Ghost(order),
    );
    issues
}


// ---------------------------------------------------------------------------------------------
// Items, one record at a time
// ---------------------------------------------------------------------------------------------

/// A digit of a base-36 rank: `0`-`9` or `a`-`z`.
pub open spec fn is_rank_digit(c: char) -> bool {
    ('0' <= c && c <= '9') || ('a' <= c && c <= 'z')
}

/// A rank in normal form: a non-empty run of base-36 digits that does not end in `0`.
pub open spec fn is_rank_normal(s: Seq<char>) -> bool {
    &&& s.len() > 0
    &&& forall|i: int| 0 <= i < s.len() ==> is_rank_digit(#[trigger] s[i])
    &&& s.last() != '0'
}

/// Whether a rank is in normal form.
pub fn rank_is_normal(s: &str) -> (r: bool)
    ensures
        r == is_rank_normal(s@),
{
    let n = s.unicode_len();
    if n == 0 {
        return false;
    }
    let mut i: usize = 0;
    while i < n
        invariant
            n == s@.len(),
            i <= n,
            forall|j: int| 0 <= j < i ==> is_rank_digit(#[trigger] s@[j]),
        decreases n - i,
    {
        let c = s.get_char(i);
        if !(('0' <= c && c <= '9') || ('a' <= c && c <= 'z')) {
            return false;
        }
        i = i + 1;
    }
    s.get_char(n - 1) != '0'
}

/// `s` is one of the configured workflow columns.
pub open spec fn is_column(columns: Seq<String>, s: Seq<char>) -> bool {
    views(columns).contains(s)
}

/// Whether `s` is one of the configured workflow columns.
pub fn column_is_configured(columns: &Vec<String>, s: &String) -> (r: bool)
    ensures
        r == is_column(columns@, s@),
{
    let n = columns.len();
    let mut i: usize = 0;
    while i < n
        invariant
            n == columns@.len(),
            i <= n,
            forall|j: int| 0 <= j < i ==> columns@[j]@ != s@,
        decreases n - i,
    {
        if columns[i] == *s {
            assert(views(columns@)[i as int] == s@);
            return true;
        }
        i = i + 1;
    }
    proof {
        if views(columns@).contains(s@) {
            let j = choose|j: int| 0 <= j < views(columns@).len() && views(columns@)[j] == s@;
            assert(columns@[j]@ == s@);
        }
    }
    false
}

/// The canonical text of the ID a record names, when it names a valid one.
pub open spec fn item_id_text(r: RawItemRecord) -> Option<Seq<char>> {
    match (r.frontmatter_error, r.id) {
        (None, RawField::Present(raw)) => match id_of_text(raw@) {
            Some(v) => Some(id_text(v)),
            None => None,
        },
        _ => None,
    }
}

/// What the id field shows.
pub open spec fn item_id_issues(r: RawItemRecord) -> Seq<IssueView> {
    let loc = r.location@;
    match r.id {
        RawField::Present(raw) => if id_of_text(raw@) is Some {
            seq![]
        } else {
            seq![
                (
                    DoctorIssueKind::IssuedId,
                    loc,
                    "item ID is invalid: "@ + debug_text(raw@),
                    "replace the frontmatter ID with a valid PREFIX-NUMBER ID"@,
                ),
            ]
        },
        RawField::Missing => seq![
            (
                DoctorIssueKind::MalformedRecord,
                loc,
                "required item field id is missing"@,
                "restore the item ID in frontmatter and keep the filename aligned"@,
            ),
        ],
        RawField::Invalid(e) => seq![
            (DoctorIssueKind::IssuedId, loc, e@, "set id to a string in PREFIX-NUMBER form"@),
        ],
    }
}

/// What the title field shows.
pub open spec fn item_title_issues(r: RawItemRecord) -> Seq<IssueView> {
    let loc = r.location@;
    match r.title {
        RawField::Present(t) => if !is_blank(t@) {
            seq![]
        } else {
            seq![
                (
                    DoctorIssueKind::MalformedRecord,
                    loc,
                    "item title must not be empty"@,
                    "restore a non-empty title in frontmatter"@,
                ),
            ]
        },
        RawField::Missing => seq![
            (
                DoctorIssueKind::MalformedRecord,
                loc,
                "required item field title is missing"@,
                "restore a non-empty title in frontmatter"@,
            ),
        ],
        RawField::Invalid(e) => seq![
            (DoctorIssueKind::MalformedRecord, loc, e@, "set title to a string in frontmatter"@),
        ],
    }
}

/// What the status field shows.
pub open spec fn item_status_issues(r: RawItemRecord, columns: Seq<String>) -> Seq<IssueView> {
    let loc = r.location@;
    match r.status {
        RawField::Present(st) => if is_column(columns, st@) {
            seq![]
        } else {
            seq![
                (
                    DoctorIssueKind::InvalidStatus,
                    loc,
                    "item status "@ + debug_text(st@) + " is not a configured workflow column"@,
                    "set status to one of the columns in config.toml"@,
                ),
            ]
        },
        RawField::Missing => seq![
            (
                DoctorIssueKind::InvalidStatus,
                loc,
                "required item field status is missing"@,
                "set status to one of the columns in config.toml"@,
            ),
        ],
        RawField::Invalid(e) => seq![
            (
                DoctorIssueKind::InvalidStatus,
                loc,
                e@,
                "set status to a string matching a configured workflow column"@,
            ),
        ],
    }
}

/// What the rank field shows.
pub open spec fn item_rank_issues(r: RawItemRecord) -> Seq<IssueView> {
    let loc = r.location@;
    match r.rank {
        RawField::Present(rk) => if is_rank_normal(rk@) {
            seq![]
        } else {
            seq![
                (
                    DoctorIssueKind::RankAnomaly,
                    loc,
                    "rank is not in normal form: "@ + debug_text(rk@),
                    "set rank to a non-empty base-36 rank without a trailing zero"@,
                ),
            ]
        },
        RawField::Missing => seq![
            (
                DoctorIssueKind::RankAnomaly,
                loc,
                "required item field rank is missing"@,
                "set rank with pinto reorder or pinto rebalance"@,
            ),
        ],
        RawField::Invalid(e) => seq![
            (DoctorIssueKind::RankAnomaly, loc, e@, "set rank to a string in normal base-36 form"@),
        ],
    }
}

/// What the file name shows, for a record with a valid ID whose text is `id`.
pub open spec fn item_filename_issues(r: RawItemRecord, id: Seq<char>) -> Seq<IssueView> {
    match r.filename {
        Some(f) => if f@ != id + ".md"@ {
            seq![
                (
                    DoctorIssueKind::Filename,
                    r.location@,
                    "filename does not match frontmatter ID "@ + id,
                    "rename the record to the canonical ID.md filename"@,
                ),
            ]
        } else {
            seq![]
        },
        None => seq![],
    }
}

/// What the parent field shows about its own form.
pub open spec fn item_parent_issues(r: RawItemRecord) -> Seq<IssueView> {
    let loc = r.location@;
    match r.parent {
        RawField::Present(p) => if id_of_text(p@) is Some {
            seq![]
        } else {
            seq![
                (
                    DoctorIssueKind::DanglingParent,
                    loc,
                    "parent reference is invalid: "@ + debug_text(p@),
                    "remove the parent field or set it to an existing PBI ID"@,
                ),
            ]
        },
        RawField::Missing => seq![],
        RawField::Invalid(e) => seq![
            (
                DoctorIssueKind::DanglingParent,
                loc,
                e@,
                "remove the parent field or set it to a string PBI ID"@,
            ),
        ],
    }
}

/// One finding per dependency that is not an ID, in list order.
pub open spec fn bad_dependency_issues(loc: Seq<char>, ds: Seq<String>) -> Seq<IssueView>
    decreases ds.len(),
{
    if ds.len() == 0 {
        seq![]
    } else {
        bad_dependency_issues(loc, ds.drop_last()) + if id_of_text(ds.last()@) is Some {
            seq![]
        } else {
            seq![
                (
                    DoctorIssueKind::DanglingDependency,
                    loc,
                    "dependency reference is invalid: "@ + debug_text(ds.last()@),
                    "remove the dependency or set it to an existing PBI ID"@,
                ),
            ]
        }
    }
}

/// What the depends_on field shows about its own form.
pub open spec fn item_dependency_issues(r: RawItemRecord) -> Seq<IssueView> {
    match r.depends_on {
        RawField::Present(ds) => bad_dependency_issues(r.location@, ds@),
        RawField::Missing => seq![],
        RawField::Invalid(e) => seq![
            (
                DoctorIssueKind::DanglingDependency,
                r.location@,
                e@,
                "remove depends_on or set it to an array of PBI IDs"@,
            ),
        ],
    }
}

/// What the sprint field shows about its own form.
pub open spec fn item_sprint_issues(r: RawItemRecord) -> Seq<IssueView> {
    let loc = r.location@;
    match r.sprint {
        RawField::Present(sp) => if is_sprint_slug(sp@) {
            seq![]
        } else {
            seq![
                (
                    DoctorIssueKind::DanglingSprint,
                    loc,
                    "sprint reference is invalid: "@ + debug_text(sp@),
                    "remove the sprint field or set it to an existing sprint ID"@,
                ),
            ]
        },
        RawField::Missing => seq![],
        RawField::Invalid(e) => seq![
            (
                DoctorIssueKind::DanglingSprint,
                loc,
                e@,
                "remove the sprint field or set it to a string sprint ID"@,
            ),
        ],
    }
}

/// What an item record shows by itself.
pub open spec fn item_record_issues(r: RawItemRecord, columns: Seq<String>) -> Seq<IssueView> {
    match r.frontmatter_error {
        Some(e) => seq![
            (
                DoctorIssueKind::MalformedRecord,
                r.location@,
                "item frontmatter is invalid: "@ + e@,
                "restore valid TOML frontmatter with the required item fields"@,
            ),
        ],
        None => {
            let base = item_id_issues(r) + item_title_issues(r) + item_status_issues(r, columns)
                + item_rank_issues(r);
            match item_id_text(r) {
                Some(id) => base + item_filename_issues(r, id) + item_parent_issues(r)
                    + item_dependency_issues(r) + item_sprint_issues(r),
                None => base,
            }
        },
    }
}

/// The canonical text of the ID `raw` names, if it names one.
fn id_text_of(raw: &String) -> (r: Option<String>)
    ensures
        match (r, id_of_text(raw@)) {
            (Some(t), Some(v)) => t@ == id_text(v),
            (None, None) => true,
            _ => false,
        },
{
    match ItemId::parse(raw.as_str()) {
        Some(id) => Some(id.to_text()),
        None => None,
    }
}

/// The canonical text of the ID a record names, when it names a valid one.
fn record_id_text(r: &RawItemRecord) -> (t: Option<String>)
    ensures
        opt_view(t) == item_id_text(*r),
{
    if r.frontmatter_error.is_some() {
        return None;
    }
    match &r.id {
        RawField::Present(raw) => id_text_of(raw),
        _ => None,
    }
}

/// The view of an optional string.
pub open spec fn opt_view(o: Option<String>) -> Option<Seq<char>> {
    match o {
        Some(s) => Some(s@),
        None => None,
    }
}

fn push_issue(out: &mut Vec<DoctorIssue>, kind: DoctorIssueKind, loc: &str, detail: String, repair: &str)
    ensures
        issues_view(final(out)@) == issues_view(old(out)@).push((kind, loc@, detail@, repair@)),
{
    let ghost before = out@;
    out.push(make_issue(kind, loc, detail, repair));
    assert(issues_view(out@) =~= issues_view(before).push((kind, loc@, detail@, repair@)));
}

/// One finding per dependency that is not an ID, in list order.
fn bad_dependency_findings(out: &mut Vec<DoctorIssue>, loc: &str, ds: &Vec<String>)
    ensures
        issues_view(final(out)@) == issues_view(old(out)@) + bad_dependency_issues(loc@, ds@),
{
    let ghost start = out@;
    let n = ds.len();
    let mut k: usize = 0;
    while k < n
        invariant
            n == ds@.len(),
            k <= n,
            issues_view(out@) == issues_view(start) + bad_dependency_issues(loc@, ds@.take(k as int)),
        decreases n - k,
    {
        proof {
            assert(ds@.take(k + 1).drop_last() =~= ds@.take(k as int));
        }
        if id_text_of(&ds[k]).is_none() {
            let q = quoted(ds[k].as_str());
            push_issue(
                out,
                DoctorIssueKind::DanglingDependency,
                loc,
                cat("dependency reference is invalid: ", q.as_str()),
                "remove the dependency or set it to an existing PBI ID",
            );
        }
        k = k + 1;
    }
    assert(ds@.take(n as int) =~= ds@);
}

fn id_findings(out: &mut Vec<DoctorIssue>, r: &RawItemRecord, id: &Option<String>)
    requires
        r.frontmatter_error is None,
        opt_view(*id) == item_id_text(*r),
    ensures
        issues_view(final(out)@) == issues_view(old(out)@) + item_id_issues(*r),
{
    let ghost s0 = issues_view(out@);
    let loc = r.location.as_str();
    match &r.id {
        RawField::Present(raw) => {
            if id.is_none() {
                let q = quoted(raw.as_str());
                push_issue(
                    out,
                    DoctorIssueKind::IssuedId,
                    loc,
                    cat("item ID is invalid: ", q.as_str()),
                    "replace the frontmatter ID with a valid PREFIX-NUMBER ID",
                );
            }
        },
        RawField::Missing => {
            push_issue(
                out,
                DoctorIssueKind::MalformedRecord,
                loc,
                "required item field id is missing".to_owned(),
                "restore the item ID in frontmatter and keep the filename aligned",
            );
        },
        RawField::Invalid(e) => {
            push_issue(out, DoctorIssueKind::IssuedId, loc, e.clone(), "set id to a string in PREFIX-NUMBER form");
        },
    }
    assert(issues_view(out@) =~= s0 + item_id_issues(*r));
}

fn title_findings(out: &mut Vec<DoctorIssue>, r: &RawItemRecord)
    ensures
        issues_view(final(out)@) == issues_view(old(out)@) + item_title_issues(*r),
{
    let ghost s0 = issues_view(out@);
    let loc = r.location.as_str();
    match &r.title {
        RawField::Present(t) => {
            if blank(t.as_str()) {
                push_issue(
                    out,
                    DoctorIssueKind::MalformedRecord,
                    loc,
                    "item title must not be empty".to_owned(),
                    "restore a non-empty title in frontmatter",
                );
            }
        },
        RawField::Missing => {
            push_issue(
                out,
                DoctorIssueKind::MalformedRecord,
                loc,
                "required item field title is missing".to_owned(),
                "restore a non-empty title in frontmatter",
            );
        },
        RawField::Invalid(e) => {
            push_issue(out, DoctorIssueKind::MalformedRecord, loc, e.clone(), "set title to a string in frontmatter");
        },
    }
    assert(issues_view(out@) =~= s0 + item_title_issues(*r));
}

fn status_findings(out: &mut Vec<DoctorIssue>, r: &RawItemRecord, columns: &Vec<String>)
    ensures
        issues_view(final(out)@) == issues_view(old(out)@) + item_status_issues(*r, columns@),
{
    let ghost s0 = issues_view(out@);
    let loc = r.location.as_str();
    match &r.status {
        RawField::Present(st) => {
            if !column_is_configured(columns, st) {
                let q = quoted(st.as_str());
                push_issue(
                    out,
                    DoctorIssueKind::InvalidStatus,
                    loc,
                    cat3("item status ", q.as_str(), " is not a configured workflow column"),
                    "set status to one of the columns in config.toml",
                );
            }
        },
        RawField::Missing => {
            push_issue(
                out,
                DoctorIssueKind::InvalidStatus,
                loc,
                "required item field status is missing".to_owned(),
                "set status to one of the columns in config.toml",
            );
        },
        RawField::Invalid(e) => {
            push_issue(
                out,
                DoctorIssueKind::InvalidStatus,
                loc,
                e.clone(),
                "set status to a string matching a configured workflow column",
            );
        },
    }
    assert(issues_view(out@) =~= s0 + item_status_issues(*r, columns@));
}

fn rank_findings(out: &mut Vec<DoctorIssue>, r: &RawItemRecord)
    ensures
        issues_view(final(out)@) == issues_view(old(out)@) + item_rank_issues(*r),
{
    let ghost s0 = issues_view(out@);
    let loc = r.location.as_str();
    match &r.rank {
        RawField::Present(rk) => {
            if !rank_is_normal(rk.as_str()) {
                let q = quoted(rk.as_str());
                push_issue(
                    out,
                    DoctorIssueKind::RankAnomaly,
                    loc,
                    cat("rank is not in normal form: ", q.as_str()),
                    "set rank to a non-empty base-36 rank without a trailing zero",
                );
            }
        },
        RawField::Missing => {
            push_issue(
                out,
                DoctorIssueKind::RankAnomaly,
                loc,
                "required item field rank is missing".to_owned(),
                "set rank with pinto reorder or pinto rebalance",
            );
        },
        RawField::Invalid(e) => {
            push_issue(out, DoctorIssueKind::RankAnomaly, loc, e.clone(), "set rank to a string in normal base-36 form");
        },
    }
    assert(issues_view(out@) =~= s0 + item_rank_issues(*r));
}

fn filename_findings(out: &mut Vec<DoctorIssue>, r: &RawItemRecord, id_text: &String)
    ensures
        issues_view(final(out)@) == issues_view(old(out)@) + item_filename_issues(*r, id_text@),
{
    let ghost s0 = issues_view(out@);
    if let Some(f) = &r.filename {
        let expected = cat(id_text.as_str(), ".md");
        if *f != expected {
            push_issue(
                out,
                DoctorIssueKind::Filename,
                r.location.as_str(),
                cat("filename does not match frontmatter ID ", id_text.as_str()),
                "rename the record to the canonical ID.md filename",
            );
        }
    }
    assert(issues_view(out@) =~= s0 + item_filename_issues(*r, id_text@));
}

fn parent_findings(out: &mut Vec<DoctorIssue>, r: &RawItemRecord)
    ensures
        issues_view(final(out)@) == issues_view(old(out)@) + item_parent_issues(*r),
{
    let ghost s0 = issues_view(out@);
    let loc = r.location.as_str();
    match &r.parent {
        RawField::Present(p) => {
            if id_text_of(p).is_none() {
                let q = quoted(p.as_str());
                push_issue(
                    out,
                    DoctorIssueKind::DanglingParent,
                    loc,
                    cat("parent reference is invalid: ", q.as_str()),
                    "remove the parent field or set it to an existing PBI ID",
                );
            }
        },
        RawField::Missing => {},
        RawField::Invalid(e) => {
            push_issue(
                out,
                DoctorIssueKind::DanglingParent,
                loc,
                e.clone(),
                "remove the parent field or set it to a string PBI ID",
            );
        },
    }
    assert(issues_view(out@) =~= s0 + item_parent_issues(*r));
}

fn dependency_findings(out: &mut Vec<DoctorIssue>, r: &RawItemRecord)
    ensures
        issues_view(final(out)@) == issues_view(old(out)@) + item_dependency_issues(*r),
{
    let ghost s0 = issues_view(out@);
    match &r.depends_on {
        RawField::Present(ds) => {
            bad_dependency_findings(out, r.location.as_str(), ds);
        },
        RawField::Missing => {},
        RawField::Invalid(e) => {
            push_issue(
                out,
                DoctorIssueKind::DanglingDependency,
                r.location.as_str(),
                e.clone(),
                "remove depends_on or set it to an array of PBI IDs",
            );
        },
    }
    assert(issues_view(out@) =~= s0 + item_dependency_issues(*r));
}

fn sprint_ref_findings(out: &mut Vec<DoctorIssue>, r: &RawItemRecord)
    ensures
        issues_view(final(out)@) == issues_view(old(out)@) + item_sprint_issues(*r),
{
    let ghost s0 = issues_view(out@);
    let loc = r.location.as_str();
    match &r.sprint {
        RawField::Present(sp) => {
            if !slug_is_valid(sp) {
                let q = quoted(sp.as_str());
                push_issue(
                    out,
                    DoctorIssueKind::DanglingSprint,
                    loc,
                    cat("sprint reference is invalid: ", q.as_str()),
                    "remove the sprint field or set it to an existing sprint ID",
                );
            }
        },
        RawField::Missing => {},
        RawField::Invalid(e) => {
            push_issue(
                out,
                DoctorIssueKind::DanglingSprint,
                loc,
                e.clone(),
                "remove the sprint field or set it to a string sprint ID",
            );
        },
    }
    assert(issues_view(out@) =~= s0 + item_sprint_issues(*r));
}

/// What an item record shows by itself.
fn item_record_findings(r: &RawItemRecord, columns: &Vec<String>) -> (out: Vec<DoctorIssue>)
    ensures
        issues_view(out@) == item_record_issues(*r, columns@),
{
    let mut out: Vec<DoctorIssue> = Vec::new();
    if let Some(e) = &r.frontmatter_error {
        push_issue(
            &mut out,
            DoctorIssueKind::MalformedRecord,
            r.location.as_str(),
            cat("item frontmatter is invalid: ", e.as_str()),
            "restore valid TOML frontmatter with the required item fields",
        );
        assert(issues_view(out@) =~= item_record_issues(*r, columns@));
        return out;
    }
    let id = record_id_text(r);
    assert(issues_view(out@) =~= seq![]);
    id_findings(&mut out, r, &id);
    title_findings(&mut out, r);
    status_findings(&mut out, r, columns);
    rank_findings(&mut out, r);
    let ghost base = issues_view(out@);
    assert(base =~= item_id_issues(*r) + item_title_issues(*r) + item_status_issues(*r, columns@)
        + item_rank_issues(*r));
    match id {
        Some(t) => {
            filename_findings(&mut out, r, &t);
            parent_findings(&mut out, r);
            dependency_findings(&mut out, r);
            sprint_ref_findings(&mut out, r);
            assert(issues_view(out@) =~= base + item_filename_issues(*r, t@) + item_parent_issues(*r)
                + item_dependency_issues(*r) + item_sprint_issues(*r));
        },
        None => {},
    }
    out
}


// ---------------------------------------------------------------------------------------------
// Items, all records together
// ---------------------------------------------------------------------------------------------

/// What each item record shows by itself, in record order.
pub open spec fn each_item_issues(rs: Seq<RawItemRecord>, columns: Seq<String>) -> Seq<IssueView>
    decreases rs.len(),
{
    if rs.len() == 0 {
        seq![]
    } else {
        each_item_issues(rs.drop_last(), columns) + item_record_issues(rs.last(), columns)
    }
}

/// The item records' locations.
pub open spec fn item_locations(rs: Seq<RawItemRecord>) -> Seq<Seq<char>> {
    Seq::new(rs.len(), |i: int| rs[i].location@)
}

/// The ID an item record is filed under.
pub open spec fn item_key(r: RawItemRecord) -> Option<Seq<Seq<char>>> {
    match item_id_text(r) {
        Some(t) => Some(seq![t]),
        None => None,
    }
}

/// The parent a record's rank is scoped to: the raw parent text, or empty.
pub open spec fn parent_scope(r: RawItemRecord) -> Seq<char> {
    match r.parent {
        RawField::Present(p) => p@,
        _ => seq![],
    }
}

/// The rank scope of an active record with a valid ID, a configured status and a normal rank:
/// status, parent scope, rank.
pub open spec fn scope_key(r: RawItemRecord, columns: Seq<String>) -> Option<Seq<Seq<char>>> {
    if item_id_text(r) is Some && r.area.holds_active() {
        match (r.status, r.rank) {
            (RawField::Present(st), RawField::Present(rk)) => if is_column(columns, st@)
                && is_rank_normal(rk@) {
                Some(seq![st@, parent_scope(r), rk@])
            } else {
                None
            },
            _ => None,
        }
    } else {
        None
    }
}

/// The file name of a record with readable frontmatter.
pub open spec fn name_key(r: RawItemRecord) -> Option<Seq<Seq<char>>> {
    match (r.frontmatter_error, r.filename) {
        (None, Some(f)) => Some(seq![f@]),
        _ => None,
    }
}

pub open spec fn item_keys(rs: Seq<RawItemRecord>) -> Seq<Option<Seq<Seq<char>>>> {
    Seq::new(rs.len(), |i: int| item_key(rs[i]))
}

pub open spec fn scope_keys(rs: Seq<RawItemRecord>, columns: Seq<String>) -> Seq<Option<Seq<Seq<char>>>> {
    Seq::new(rs.len(), |i: int| scope_key(rs[i], columns))
}

pub open spec fn name_keys(rs: Seq<RawItemRecord>) -> Seq<Option<Seq<Seq<char>>>> {
    Seq::new(rs.len(), |i: int| name_key(rs[i]))
}

/// A reference: the referring record, the referenced ID, and the referring record's ID.
pub type RefView = (int, Seq<char>, Seq<char>);

/// The parent reference of record `i`, when both it and its parent are valid IDs.
pub open spec fn parent_ref(r: RawItemRecord, i: int) -> Seq<RefView> {
    match (item_id_text(r), r.parent) {
        (Some(src), RawField::Present(p)) => match id_of_text(p@) {
            Some(v) => seq![(i, id_text(v), src)],
            None => seq![],
        },
        _ => seq![],
    }
}

/// The valid dependency references in list `ds` of record `i` with ID `src`, in list order.
pub open spec fn dependency_refs_in(ds: Seq<String>, i: int, src: Seq<char>) -> Seq<RefView>
    decreases ds.len(),
{
    if ds.len() == 0 {
        seq![]
    } else {
        dependency_refs_in(ds.drop_last(), i, src) + match id_of_text(ds.last()@) {
            Some(v) => seq![(i, id_text(v), src)],
            None => seq![],
        }
    }
}

/// The dependency references of record `i`.
pub open spec fn dependency_ref(r: RawItemRecord, i: int) -> Seq<RefView> {
    match (item_id_text(r), r.depends_on) {
        (Some(src), RawField::Present(ds)) => dependency_refs_in(ds@, i, src),
        _ => seq![],
    }
}

/// The sprint reference of record `i`, when it has a valid ID and names a valid sprint ID.
pub open spec fn sprint_ref(r: RawItemRecord, i: int) -> Seq<RefView> {
    match (item_id_text(r), r.sprint) {
        (Some(_), RawField::Present(sp)) => if is_sprint_slug(sp@) {
            seq![(i, sp@, seq![])]
        } else {
            seq![]
        },
        _ => seq![],
    }
}

/// The parent references of the first `n` records, in record order.
pub open spec fn parent_refs(rs: Seq<RawItemRecord>, n: int) -> Seq<RefView>
    decreases n,
{
    if n <= 0 {
        seq![]
    } else {
        parent_refs(rs, n - 1) + parent_ref(rs[n - 1], n - 1)
    }
}

/// The dependency references of the first `n` records, in record order.
pub open spec fn dependency_refs(rs: Seq<RawItemRecord>, n: int) -> Seq<RefView>
    decreases n,
{
    if n <= 0 {
        seq![]
    } else {
        dependency_refs(rs, n - 1) + dependency_ref(rs[n - 1], n - 1)
    }
}

/// The sprint references of the first `n` records, in record order.
pub open spec fn sprint_refs(rs: Seq<RawItemRecord>, n: int) -> Seq<RefView>
    decreases n,
{
    if n <= 0 {
        seq![]
    } else {
        sprint_refs(rs, n - 1) + sprint_ref(rs[n - 1], n - 1)
    }
}

/// The IDs of the item records with valid ones.
pub open spec fn known_items(rs: Seq<RawItemRecord>) -> Set<Seq<char>> {
    Set::new(|t: Seq<char>| exists|i: int| 0 <= i < rs.len() && #[trigger] item_id_text(rs[i]) == Some(t))
}

/// The valid sprint ID of a sprint record.
pub open spec fn sprint_valid_id(r: RawSprintRecord) -> Option<Seq<char>> {
    match r.id {
        RawField::Present(s) => if is_sprint_slug(s@) {
            Some(s@)
        } else {
            None
        },
        _ => None,
    }
}

/// The valid sprint IDs of the sprint records.
pub open spec fn known_sprints(ss: Seq<RawSprintRecord>) -> Set<Seq<char>> {
    Set::new(|t: Seq<char>| exists|i: int| 0 <= i < ss.len() && #[trigger] sprint_valid_id(ss[i]) == Some(t))
}

/// One finding per reference to an ID outside `known`, in reference order, with the detail
/// `before`, the referring ID, `middle`, and the referenced ID.
pub open spec fn missing_ref_issues(
    kind: DoctorIssueKind,
    locs: Seq<Seq<char>>,
    refs: Seq<RefView>,
    known: Set<Seq<char>>,
    before: Seq<char>,
    middle: Seq<char>,
    repair: Seq<char>,
) -> Seq<IssueView>
    decreases refs.len(),
{
    if refs.len() == 0 {
        seq![]
    } else {
        let r = refs.last();
        missing_ref_issues(kind, locs, refs.drop_last(), known, before, middle, repair) + if known.contains(r.1) {
            seq![]
        } else {
            seq![(kind, locs[r.0], before + r.2 + middle + r.1, repair)]
        }
    }
}

/// One finding per record whose rank is shared within its scope, scope by scope.
pub open spec fn scope_issues(locs: Seq<Seq<char>>, groups: Seq<(Seq<Seq<char>>, Seq<usize>)>) -> Seq<IssueView>
    decreases groups.len(),
{
    if groups.len() == 0 {
        seq![]
    } else {
        let g = groups.last();
        scope_issues(locs, groups.drop_last()) + member_issues(
            DoctorIssueKind::RankAnomaly,
            locs,
            g.1,
            "rank "@ + debug_text(g.0[2]) + " is duplicated in status "@ + debug_text(g.0[0])
                + " and parent scope "@ + debug_text(g.0[1]),
            "run pinto rebalance for the affected workflow scope"@,
        )
    }
}

/// Some member of the group was read from `area`.
pub open spec fn group_has_area(rs: Seq<RawItemRecord>, m: Seq<usize>, area: RecordArea) -> bool {
    exists|j: int| 0 <= j < m.len() && rs[#[trigger] m[j] as int].area == area
}

/// One finding per record of a file name present in both the task and the archive files.
pub open spec fn collision_issues(
    rs: Seq<RawItemRecord>,
    locs: Seq<Seq<char>>,
    groups: Seq<(Seq<Seq<char>>, Seq<usize>)>,
) -> Seq<IssueView>
    decreases groups.len(),
{
    if groups.len() == 0 {
        seq![]
    } else {
        let g = groups.last();
        collision_issues(rs, locs, groups.drop_last()) + if group_has_area(rs, g.1, RecordArea::Tasks)
            && group_has_area(rs, g.1, RecordArea::Archive) {
            member_issues(
                DoctorIssueKind::Collision,
                locs,
                g.1,
                "filename "@ + debug_text(g.0[0]) + " exists in both tasks and archive"@,
                "keep one copy and move or remove the other record manually"@,
            )
        } else {
            seq![]
        }
    }
}

/// One finding per cycle, located and described by its members joined with ` -> `.
pub open spec fn cycle_issues(
    kind: DoctorIssueKind,
    prefix: Seq<char>,
    repair: Seq<char>,
    cs: Seq<Seq<Seq<char>>>,
) -> Seq<IssueView>
    decreases cs.len(),
{
    if cs.len() == 0 {
        seq![]
    } else {
        let c = join(cs.last(), " -> "@);
        cycle_issues(kind, prefix, repair, cs.drop_last()) + seq![(kind, c, prefix + c, repair)]
    }
}

/// `g`'s edges are exactly the references, from referring ID to referenced ID.
pub open spec fn links(g: Seq<(String, Vec<String>)>, refs: Seq<RefView>) -> bool {
    forall|a: Seq<char>, b: Seq<char>| #[trigger] has_edge(g, a, b) <==> has_ref(refs, a, b)
}

/// Some reference goes from `a` to `b`.
pub open spec fn has_ref(refs: Seq<RefView>, a: Seq<char>, b: Seq<char>) -> bool {
    exists|k: int| 0 <= k < refs.len() && (#[trigger] refs[k]).2 == a && refs[k].1 == b
}

/// The references as values.
pub open spec fn refs_view(v: Seq<(usize, String, String)>) -> Seq<RefView> {
    v.map_values(|r: (usize, String, String)| (r.0 as int, r.1@, r.2@))
}

fn one_key(s: &String) -> (r: Option<Vec<String>>)
    ensures
        r matches Some(v) && views(v@) == seq![s@],
{
    let mut v: Vec<String> = Vec::new();
    v.push(s.clone());
    assert(views(v@) =~= seq![s@]);
    Some(v)
}

fn collect_item_keys(rs: &Vec<RawItemRecord>) -> (keys: Vec<Option<Vec<String>>>)
    ensures
        keys_view(keys@) == item_keys(rs@),
{
    let mut keys: Vec<Option<Vec<String>>> = Vec::new();
    let n = rs.len();
    let mut i: usize = 0;
    while i < n
        invariant
            n == rs@.len(),
            i <= n,
            keys_view(keys@) == item_keys(rs@.take(i as int)),
        decreases n - i,
    {
        let k = match record_id_text(&rs[i]) {
            Some(t) => one_key(&t),
            None => None,
        };
        let ghost before = keys@;
        keys.push(k);
        assert(keys_view(keys@) =~= item_keys(rs@.take(i + 1))) by {
            assert(keys_view(keys@) =~= keys_view(before).push(keys_view(keys@)[i as int]));
        }
        i = i + 1;
    }
    assert(rs@.take(n as int) =~= rs@);
    keys
}

fn collect_name_keys(rs: &Vec<RawItemRecord>) -> (keys: Vec<Option<Vec<String>>>)
    ensures
        keys_view(keys@) == name_keys(rs@),
{
    let mut keys: Vec<Option<Vec<String>>> = Vec::new();
    let n = rs.len();
    let mut i: usize = 0;
    while i < n
        invariant
            n == rs@.len(),
            i <= n,
            keys_view(keys@) == name_keys(rs@.take(i as int)),
        decreases n - i,
    {
        let r = &rs[i];
        let k = if r.frontmatter_error.is_some() {
            None
        } else {
            match &r.filename {
                Some(f) => one_key(f),
                None => None,
            }
        };
        let ghost before = keys@;
        keys.push(k);
        assert(keys_view(keys@) =~= name_keys(rs@.take(i + 1))) by {
            assert(keys_view(keys@) =~= keys_view(before).push(keys_view(keys@)[i as int]));
        }
        i = i + 1;
    }
    assert(rs@.take(n as int) =~= rs@);
    keys
}

fn scope_key_of(r: &RawItemRecord, columns: &Vec<String>) -> (k: Option<Vec<String>>)
    ensures
        match k {
            Some(v) => scope_key(*r, columns@) == Some(views(v@)),
            None => scope_key(*r, columns@) is None,
        },
{
    if record_id_text(r).is_none() || !r.area.is_active_store() {
        return None;
    }
    match (&r.status, &r.rank) {
        (RawField::Present(st), RawField::Present(rk)) => {
            if column_is_configured(columns, st) && rank_is_normal(rk.as_str()) {
                let parent = match &r.parent {
                    RawField::Present(p) => p.clone(),
                    _ => String::new(),
                };
                assert(parent@ == parent_scope(*r));
                let mut v: Vec<String> = Vec::new();
                v.push(st.clone());
                v.push(parent);
                v.push(rk.clone());
                assert(views(v@) =~= seq![st@, parent_scope(*r), rk@]);
                Some(v)
            } else {
                None
            }
        },
        _ => None,
    }
}

fn collect_scope_keys(rs: &Vec<RawItemRecord>, columns: &Vec<String>) -> (keys: Vec<Option<Vec<String>>>)
    ensures
        keys_view(keys@) == scope_keys(rs@, columns@),
{
    let mut keys: Vec<Option<Vec<String>>> = Vec::new();
    let n = rs.len();
    let mut i: usize = 0;
    while i < n
        invariant
            n == rs@.len(),
            i <= n,
            keys_view(keys@) == scope_keys(rs@.take(i as int), columns@),
        decreases n - i,
    {
        let k = scope_key_of(&rs[i], columns);
        let ghost before = keys@;
        keys.push(k);
        assert(keys_view(keys@) =~= scope_keys(rs@.take(i + 1), columns@)) by {
            assert(keys_view(keys@) =~= keys_view(before).push(keys_view(keys@)[i as int]));
        }
        i = i + 1;
    }
    assert(rs@.take(n as int) =~= rs@);
    keys
}

fn push_ref(refs: &mut Vec<(usize, String, String)>, i: usize, target: String, source: String)
    ensures
        refs_view(final(refs)@) == refs_view(old(refs)@).push((i as int, target@, source@)),
{
    let ghost before = refs@;
    refs.push((i, target, source));
    assert(refs_view(refs@) =~= refs_view(before).push((i as int, target@, source@)));
}

fn collect_parent_refs(rs: &Vec<RawItemRecord>) -> (refs: Vec<(usize, String, String)>)
    ensures
        refs_view(refs@) == parent_refs(rs@, rs@.len() as int),
{
    let mut refs: Vec<(usize, String, String)> = Vec::new();
    let n = rs.len();
    let mut i: usize = 0;
    while i < n
        invariant
            n == rs@.len(),
            i <= n,
            refs_view(refs@) == parent_refs(rs@, i as int),
        decreases n - i,
    {
        let r = &rs[i];
        let ghost before = refs_view(refs@);
        if let Some(src) = record_id_text(r) {
            if let RawField::Present(p) = &r.parent {
                if let Some(t) = id_text_of(p) {
                    push_ref(&mut refs, i, t, src);
                }
            }
        }
        assert(refs_view(refs@) =~= before + parent_ref(rs@[i as int], i as int));
        i = i + 1;
    }
    refs
}

fn collect_dependency_refs(rs: &Vec<RawItemRecord>) -> (refs: Vec<(usize, String, String)>)
    ensures
        refs_view(refs@) == dependency_refs(rs@, rs@.len() as int),
{
    let mut refs: Vec<(usize, String, String)> = Vec::new();
    let n = rs.len();
    let mut i: usize = 0;
    while i < n
        invariant
            n == rs@.len(),
            i <= n,
            refs_view(refs@) == dependency_refs(rs@, i as int),
        decreases n - i,
    {
        let r = &rs[i];
        let ghost before = refs_view(refs@);
        if let Some(src) = record_id_text(r) {
            if let RawField::Present(ds) = &r.depends_on {
                let m = ds.len();
                let mut k: usize = 0;
                while k < m
                    invariant
                        m == ds@.len(),
                        k <= m,
                        refs_view(refs@) == before + dependency_refs_in(ds@.take(k as int), i as int, src@),
                    decreases m - k,
                {
                    assert(ds@.take(k + 1).drop_last() =~= ds@.take(k as int));
                    if let Some(t) = id_text_of(&ds[k]) {
                        push_ref(&mut refs, i, t, src.clone());
                    }
                    k = k + 1;
                }
                assert(ds@.take(m as int) =~= ds@);
            }
        }
        assert(refs_view(refs@) =~= before + dependency_ref(rs@[i as int], i as int));
        i = i + 1;
    }
    refs
}

fn collect_sprint_refs(rs: &Vec<RawItemRecord>) -> (refs: Vec<(usize, String, String)>)
    ensures
        refs_view(refs@) == sprint_refs(rs@, rs@.len() as int),
{
    let mut refs: Vec<(usize, String, String)> = Vec::new();
    let n = rs.len();
    let mut i: usize = 0;
    while i < n
        invariant
            n == rs@.len(),
            i <= n,
            refs_view(refs@) == sprint_refs(rs@, i as int),
        decreases n - i,
    {
        let r = &rs[i];
        let ghost before = refs_view(refs@);
        if record_id_text(r).is_some() {
            if let RawField::Present(sp) = &r.sprint {
                if slug_is_valid(sp) {
                    let empty = String::new();
                    assert(empty@ == Seq::<char>::empty());
                    push_ref(&mut refs, i, sp.clone(), empty);
                }
            }
        }
        assert(refs_view(refs@) =~= before + sprint_ref(rs@[i as int], i as int));
        i = i + 1;
    }
    refs
}

/// The strings, each once, in string order.
fn sorted_set(all: Vec<String>) -> (r: Vec<String>)
    ensures
        is_strictly_sorted(r@),
        forall|t: Seq<char>| views(r@).contains(t) <==> views(all@).contains(t),
{
    let sorted = sort_strings(all);
    let r = dedup_sorted(&sorted);
    proof {
        assert forall|t: Seq<char>| views(r@).contains(t) <==> views(all@).contains(t) by {
            assert(views(r@).to_set().contains(t) == views(r@).contains(t));
            if views(all@).contains(t) {
                lemma_multiset_views_contains(all@, sorted@, t);
                assert(views(sorted@).to_set().contains(t));
            }
            if views(r@).contains(t) {
                assert(views(sorted@).to_set().contains(t));
                lemma_multiset_views_contains(sorted@, all@, t);
            }
        }
    }
    r
}

/// The IDs of the item records with valid ones, each once, in string order.
fn known_item_ids(rs: &Vec<RawItemRecord>) -> (r: Vec<String>)
    ensures
        is_strictly_sorted(r@),
        forall|t: Seq<char>| views(r@).contains(t) <==> known_items(rs@).contains(t),
{
    let mut all: Vec<String> = Vec::new();
    let n = rs.len();
    let mut i: usize = 0;
    while i < n
        invariant
            n == rs@.len(),
            i <= n,
            forall|t: Seq<char>|
                views(all@).contains(t) <==> exists|j: int| 0 <= j < i && #[trigger] item_id_text(rs@[j]) == Some(t),
        decreases n - i,
    {
        let ghost before = all@;
        if let Some(t) = record_id_text(&rs[i]) {
            all.push(t);
            proof {
                assert(views(all@) =~= views(before).push(t@));
            }
        }
        proof {
            assert forall|t2: Seq<char>| views(all@).contains(t2) <==> exists|j: int|
                0 <= j < i + 1 && #[trigger] item_id_text(rs@[j]) == Some(t2) by {
                if views(all@).contains(t2) && !views(before).contains(t2) {
                    assert(item_id_text(rs@[i as int]) == Some(t2));
                }
                if views(before).contains(t2) {
                    let k = choose|k: int| 0 <= k < views(before).len() && views(before)[k] == t2;
                    assert(views(all@)[k] == t2);
                }
                if exists|j: int| 0 <= j < i + 1 && #[trigger] item_id_text(rs@[j]) == Some(t2) {
                    let j = choose|j: int| 0 <= j < i + 1 && #[trigger] item_id_text(rs@[j]) == Some(t2);
                    if j == i {
                        assert(views(all@)[views(all@).len() - 1] == t2);
                    } else {
                        assert(views(before).contains(t2));
                        let k = choose|k: int| 0 <= k < views(before).len() && views(before)[k] == t2;
                        assert(views(all@)[k] == t2);
                    }
                }
            }
        }
        i = i + 1;
    }
    sorted_set(all)
}

/// The valid IDs of the sprint records, each once, in string order.
fn known_sprint_ids(ss: &Vec<RawSprintRecord>) -> (r: Vec<String>)
    ensures
        is_strictly_sorted(r@),
        forall|t: Seq<char>| views(r@).contains(t) <==> known_sprints(ss@).contains(t),
{
    let mut all: Vec<String> = Vec::new();
    let n = ss.len();
    let mut i: usize = 0;
    while i < n
        invariant
            n == ss@.len(),
            i <= n,
            forall|t: Seq<char>|
                views(all@).contains(t) <==> exists|j: int| 0 <= j < i && #[trigger] sprint_valid_id(ss@[j]) == Some(t),
        decreases n - i,
    {
        let ghost before = all@;
        let mut hit = false;
        if let RawField::Present(id) = &ss[i].id {
            if slug_is_valid(id) {
                all.push(id.clone());
                hit = true;
                proof {
                    assert(views(all@) =~= views(before).push(id@));
                }
            }
        }
        proof {
            assert forall|t2: Seq<char>| views(all@).contains(t2) <==> exists|j: int|
                0 <= j < i + 1 && #[trigger] sprint_valid_id(ss@[j]) == Some(t2) by {
                if views(all@).contains(t2) && !views(before).contains(t2) {
                    assert(hit);
                    assert(sprint_valid_id(ss@[i as int]) == Some(t2));
                }
                if views(before).contains(t2) {
                    let k = choose|k: int| 0 <= k < views(before).len() && views(before)[k] == t2;
                    assert(views(all@)[k] == t2);
                }
                if exists|j: int| 0 <= j < i + 1 && #[trigger] sprint_valid_id(ss@[j]) == Some(t2) {
                    let j = choose|j: int| 0 <= j < i + 1 && #[trigger] sprint_valid_id(ss@[j]) == Some(t2);
                    if j == i {
                        assert(views(all@)[views(all@).len() - 1] == t2);
                    } else {
                        assert(views(before).contains(t2));
                        let k = choose|k: int| 0 <= k < views(before).len() && views(before)[k] == t2;
                        assert(views(all@)[k] == t2);
                    }
                }
            }
        }
        i = i + 1;
    }
    sorted_set(all)
}

/// One finding per reference to an ID outside `known`, in reference order.
fn missing_ref_findings(
    out: &mut Vec<DoctorIssue>,
    kind: DoctorIssueKind,
    locs: &Vec<String>,
    refs: &Vec<(usize, String, String)>,
    known: &Vec<String>,
    before: &str,
    middle: &str,
    repair: &str,
    Ghost(known_set): Ghost<Set<Seq<char>>>,
)
    requires
        is_strictly_sorted(known@),
        forall|t: Seq<char>| views(known@).contains(t) <==> known_set.contains(t),
        forall|k: int| 0 <= k < refs@.len() ==> (#[trigger] refs@[k]).0 < locs@.len(),
    ensures
        issues_view(final(out)@) == issues_view(old(out)@) + missing_ref_issues(
            kind,
            views(locs@),
            refs_view(refs@),
            known_set,
            before@,
            middle@,
            repair@,
        ),
{
    let ghost start = issues_view(out@);
    let n = refs.len();
    let mut k: usize = 0;
    while k < n
        invariant
            n == refs@.len(),
            k <= n,
            forall|k2: int| 0 <= k2 < refs@.len() ==> (#[trigger] refs@[k2]).0 < locs@.len(),
            is_strictly_sorted(known@),
            forall|t: Seq<char>| views(known@).contains(t) <==> known_set.contains(t),
            issues_view(out@) == start + missing_ref_issues(
                kind,
                views(locs@),
                refs_view(refs@).take(k as int),
                known_set,
                before@,
                middle@,
                repair@,
            ),
        decreases n - k,
    {
        let r = &refs[k];
        proof {
            assert(refs_view(refs@).take(k + 1).drop_last() =~= refs_view(refs@).take(k as int));
            assert(refs_view(refs@).take(k + 1).last() == (r.0 as int, r.1@, r.2@));
        }
        let found = find_sorted(known, &r.1);
        let present = found.is_some();
        proof {
            if let Some(j) = found {
                assert(views(known@)[j as int] == r.1@);
            }
            if !present {
                if views(known@).contains(r.1@) {
                    let j = choose|j: int| 0 <= j < views(known@).len() && views(known@)[j] == r.1@;
                    assert(known@[j]@ == r.1@);
                }
            }
        }
        if !present {
            push_issue(
                out,
                kind,
                locs[r.0].as_str(),
                cat4(before, r.2.as_str(), middle, r.1.as_str()),
                repair,
            );
        }
        k = k + 1;
    }
    assert(refs_view(refs@).take(n as int) =~= refs_view(refs@));
}

/// The facts about groups that the reports below rely on.
pub open spec fn groups_hold(kvs: Seq<Option<Seq<Seq<char>>>>, gs: Seq<(Seq<Seq<char>>, Seq<usize>)>) -> bool {
    forall|k: int|
        0 <= k < gs.len() ==> {
            let g = #[trigger] gs[k];
            &&& g.1.len() >= 2
            &&& forall|j: int| 0 <= j < g.1.len() ==> #[trigger] g.1[j] < kvs.len()
            &&& forall|j: int| 0 <= j < g.1.len() ==> kvs[#[trigger] g.1[j] as int] == Some(g.0)
        }
}

proof fn lemma_groups_hold(kvs: Seq<Option<Seq<Seq<char>>>>, order: Seq<Seq<Seq<char>>>)
    requires
        kvs.len() <= usize::MAX,
    ensures
        groups_hold(kvs, repeated_in(kvs, order)),
{
    lemma_repeated_in(kvs, order);
}

/// One finding per record whose rank is shared within its scope, scope by scope.
fn scope_findings(
    out: &mut Vec<DoctorIssue>,
    locs: &Vec<String>,
    groups: &Vec<(Vec<String>, Vec<usize>)>,
    Ghost(kvs): Ghost<Seq<Option<Seq<Seq<char>>>>>,
)
    requires
        kvs.len() == locs@.len(),
        groups_hold(kvs, groups_view(groups@)),
        forall|i: int| 0 <= i < kvs.len() && kvs[i] is Some ==> (#[trigger] kvs[i]).unwrap().len() == 3,
    ensures
        issues_view(final(out)@) == issues_view(old(out)@) + scope_issues(views(locs@), groups_view(groups@)),
{
    let ghost start = issues_view(out@);
    let n = groups.len();
    let mut k: usize = 0;
    while k < n
        invariant
            n == groups@.len(),
            k <= n,
            kvs.len() == locs@.len(),
            groups_hold(kvs, groups_view(groups@)),
            forall|i: int| 0 <= i < kvs.len() && kvs[i] is Some ==> (#[trigger] kvs[i]).unwrap().len() == 3,
            issues_view(out@) == start + scope_issues(views(locs@), groups_view(groups@).take(k as int)),
        decreases n - k,
    {
        let key = &groups[k].0;
        let m = &groups[k].1;
        proof {
            let gs = groups_view(groups@);
            let g = gs[k as int];
            assert(g == (views(key@), m@));
            assert(gs.take(k + 1).drop_last() =~= gs.take(k as int));
            assert(gs.take(k + 1).last() == g);
            assert(kvs[g.1[0] as int] == Some(g.0));
            assert(key@.len() == 3);
        }
        let status = quoted(key[0].as_str());
        let parent = quoted(key[1].as_str());
        let rank = quoted(key[2].as_str());
        let mut detail = cat4("rank ", rank.as_str(), " is duplicated in status ", status.as_str());
        detail.append(" and parent scope ");
        detail.append(parent.as_str());
        emit_group(out, DoctorIssueKind::RankAnomaly, locs, m, &detail, "run pinto rebalance for the affected workflow scope");
        k = k + 1;
    }
    assert(groups_view(groups@).take(n as int) =~= groups_view(groups@));
}

/// Whether some member of the group was read from `area`.
fn group_area(rs: &Vec<RawItemRecord>, m: &Vec<usize>, area: RecordArea) -> (r: bool)
    requires
        forall|j: int| 0 <= j < m@.len() ==> #[trigger] m@[j] < rs@.len(),
    ensures
        r == group_has_area(rs@, m@, area),
{
    let n = m.len();
    let mut j: usize = 0;
    while j < n
        invariant
            n == m@.len(),
            j <= n,
            forall|j2: int| 0 <= j2 < m@.len() ==> #[trigger] m@[j2] < rs@.len(),
            forall|j2: int| 0 <= j2 < j ==> rs@[#[trigger] m@[j2] as int].area != area,
        decreases n - j,
    {
        if rs[m[j]].area == area {
            return true;
        }
        j = j + 1;
    }
    false
}

/// One finding per record of a file name present in both the task and the archive files.
fn collision_findings(
    out: &mut Vec<DoctorIssue>,
    rs: &Vec<RawItemRecord>,
    locs: &Vec<String>,
    groups: &Vec<(Vec<String>, Vec<usize>)>,
    Ghost(kvs): Ghost<Seq<Option<Seq<Seq<char>>>>>,
)
    requires
        kvs.len() == locs@.len(),
        rs@.len() == locs@.len(),
        groups_hold(kvs, groups_view(groups@)),
        forall|i: int| 0 <= i < kvs.len() && kvs[i] is Some ==> (#[trigger] kvs[i]).unwrap().len() == 1,
    ensures
        issues_view(final(out)@) == issues_view(old(out)@) + collision_issues(
            rs@,
            views(locs@),
            groups_view(groups@),
        ),
{
    let ghost start = issues_view(out@);
    let n = groups.len();
    let mut k: usize = 0;
    while k < n
        invariant
            n == groups@.len(),
            k <= n,
            kvs.len() == locs@.len(),
            rs@.len() == locs@.len(),
            groups_hold(kvs, groups_view(groups@)),
            forall|i: int| 0 <= i < kvs.len() && kvs[i] is Some ==> (#[trigger] kvs[i]).unwrap().len() == 1,
            issues_view(out@) == start + collision_issues(rs@, views(locs@), groups_view(groups@).take(k as int)),
        decreases n - k,
    {
        let key = &groups[k].0;
        let m = &groups[k].1;
        proof {
            let gs = groups_view(groups@);
            let g = gs[k as int];
            assert(g == (views(key@), m@));
            assert(gs.take(k + 1).drop_last() =~= gs.take(k as int));
            assert(gs.take(k + 1).last() == g);
            assert(kvs[g.1[0] as int] == Some(g.0));
            assert(key@.len() == 1);
        }
        if group_area(rs, m, RecordArea::Tasks) && group_area(rs, m, RecordArea::Archive) {
            let name = quoted(key[0].as_str());
            let detail = cat3("filename ", name.as_str(), " exists in both tasks and archive");
            emit_group(
                out,
                DoctorIssueKind::Collision,
                locs,
                m,
                &detail,
                "keep one copy and move or remove the other record manually",
            );
        }
        k = k + 1;
    }
    assert(groups_view(groups@).take(n as int) =~= groups_view(groups@));
}

/// A graph with one edge per reference, from the referring ID to the referenced one.
fn edges_from(refs: &Vec<(usize, String, String)>) -> (g: Vec<(String, Vec<String>)>)
    ensures
        links(g@, refs_view(refs@)),
{
    let mut g: Vec<(String, Vec<String>)> = Vec::new();
    let n = refs.len();
    let mut k: usize = 0;
    while k < n
        invariant
            n == refs@.len(),
            k <= n,
            g@.len() == k,
            forall|k2: int|
                0 <= k2 < k ==> (#[trigger] g@[k2]).0@ == refs@[k2].2@ && g@[k2].1@.len() == 1
                    && g@[k2].1@[0]@ == refs@[k2].1@,
        decreases n - k,
    {
        let mut t: Vec<String> = Vec::new();
        t.push(refs[k].1.clone());
        g.push((refs[k].2.clone(), t));
        k = k + 1;
    }
    proof {
        let rv = refs_view(refs@);
        assert forall|a: Seq<char>, b: Seq<char>| #[trigger] has_edge(g@, a, b) <==> has_ref(rv, a, b) by {
            if has_edge(g@, a, b) {
                let (i, j) = choose|i: int, j: int|
                    #![trigger g@[i].1@[j]]
                    0 <= i < g@.len() && 0 <= j < g@[i].1@.len() && g@[i].0@ == a && g@[i].1@[j]@ == b;
                assert(rv[i].2 == a && rv[i].1 == b);
            }
            if has_ref(rv, a, b) {
                let i = choose|i: int| 0 <= i < rv.len() && (#[trigger] rv[i]).2 == a && rv[i].1 == b;
                assert(g@[i].1@[0]@ == b);
            }
        }
    }
    g
}

/// One finding per cycle, located and described by its members joined with ` -> `.
fn cycle_findings(
    out: &mut Vec<DoctorIssue>,
    kind: DoctorIssueKind,
    prefix: &str,
    repair: &str,
    cs: &Vec<Vec<String>>,
)
    ensures
        issues_view(final(out)@) == issues_view(old(out)@) + cycle_issues(kind, prefix@, repair@, lists_view(cs@)),
{
    let ghost start = issues_view(out@);
    let n = cs.len();
    let mut k: usize = 0;
    while k < n
        invariant
            n == cs@.len(),
            k <= n,
            issues_view(out@) == start + cycle_issues(kind, prefix@, repair@, lists_view(cs@).take(k as int)),
        decreases n - k,
    {
        proof {
            let lv = lists_view(cs@);
            assert(lv.take(k + 1).drop_last() =~= lv.take(k as int));
            assert(lv.take(k + 1).last() == views(cs@[k as int]@));
        }
        let joined = join_strings(&cs[k], " -> ");
        let loc = joined.clone();
        push_issue(out, kind, loc.as_str(), cat(prefix, joined.as_str()), repair);
        k = k + 1;
    }
    assert(lists_view(cs@).take(n as int) =~= lists_view(cs@));
}

proof fn lemma_parent_refs_range(rs: Seq<RawItemRecord>, n: int)
    requires
        0 <= n <= rs.len(),
    ensures
        forall|k: int| 0 <= k < parent_refs(rs, n).len() ==> 0 <= (#[trigger] parent_refs(rs, n)[k]).0 < n,
    decreases n,
{
    if n > 0 {
        lemma_parent_refs_range(rs, n - 1);
        let p = parent_refs(rs, n - 1);
        assert forall|k: int| 0 <= k < parent_refs(rs, n).len() implies 0 <= (#[trigger] parent_refs(rs, n)[k]).0 < n by {
            if k < p.len() {
                assert(parent_refs(rs, n)[k] == p[k]);
            }
        }
    }
}

proof fn lemma_dependency_refs_in_range(ds: Seq<String>, i: int, src: Seq<char>)
    ensures
        forall|k: int| 0 <= k < dependency_refs_in(ds, i, src).len() ==> (#[trigger] dependency_refs_in(ds, i, src)[k]).0 == i,
    decreases ds.len(),
{
    if ds.len() > 0 {
        lemma_dependency_refs_in_range(ds.drop_last(), i, src);
        let p = dependency_refs_in(ds.drop_last(), i, src);
        assert forall|k: int| 0 <= k < dependency_refs_in(ds, i, src).len() implies (#[trigger] dependency_refs_in(ds, i, src)[k]).0 == i by {
            if k < p.len() {
                assert(dependency_refs_in(ds, i, src)[k] == p[k]);
            }
        }
    }
}

proof fn lemma_dependency_refs_range(rs: Seq<RawItemRecord>, n: int)
    requires
        0 <= n <= rs.len(),
    ensures
        forall|k: int| 0 <= k < dependency_refs(rs, n).len() ==> 0 <= (#[trigger] dependency_refs(rs, n)[k]).0 < n,
    decreases n,
{
    if n > 0 {
        lemma_dependency_refs_range(rs, n - 1);
        let p = dependency_refs(rs, n - 1);
        let r = rs[n - 1];
        match (item_id_text(r), r.depends_on) {
            (Some(src), RawField::Present(ds)) => lemma_dependency_refs_in_range(ds@, n - 1, src),
            _ => {},
        }
        assert forall|k: int| 0 <= k < dependency_refs(rs, n).len() implies 0 <= (#[trigger] dependency_refs(rs, n)[k]).0 < n by {
            if k < p.len() {
                assert(dependency_refs(rs, n)[k] == p[k]);
            } else {
                assert(dependency_refs(rs, n)[k] == dependency_ref(r, n - 1)[k - p.len()]);
            }
        }
    }
}

proof fn lemma_sprint_refs_range(rs: Seq<RawItemRecord>, n: int)
    requires
        0 <= n <= rs.len(),
    ensures
        forall|k: int| 0 <= k < sprint_refs(rs, n).len() ==> 0 <= (#[trigger] sprint_refs(rs, n)[k]).0 < n,
    decreases n,
{
    if n > 0 {
        lemma_sprint_refs_range(rs, n - 1);
        let p = sprint_refs(rs, n - 1);
        assert forall|k: int| 0 <= k < sprint_refs(rs, n).len() implies 0 <= (#[trigger] sprint_refs(rs, n)[k]).0 < n by {
            if k < p.len() {
                assert(sprint_refs(rs, n)[k] == p[k]);
            }
        }
    }
}

/// What the item records were compared by: the orders of their IDs, rank scopes and file
/// names, their parent and dependency graphs, and the cycles found in those graphs.
pub open spec fn records_basis(
    rs: Seq<RawItemRecord>,
    columns: Seq<String>,
    o_ids: Seq<Seq<Seq<char>>>,
    o_scopes: Seq<Seq<Seq<char>>>,
    o_names: Seq<Seq<Seq<char>>>,
    pg: Seq<(String, Vec<String>)>,
    dg: Seq<(String, Vec<String>)>,
    pcs: Seq<Vec<String>>,
    dcs: Seq<Vec<String>>,
) -> bool {
    &&& key_order(item_keys(rs), o_ids)
    &&& key_order(scope_keys(rs, columns), o_scopes)
    &&& key_order(name_keys(rs), o_names)
    &&& links(pg, parent_refs(rs, rs.len() as int))
    &&& links(dg, dependency_refs(rs, rs.len() as int))
    &&& search_reports(pg, pcs)
    &&& search_reports(dg, dcs)
}

/// The findings on item records, in report order.
pub open spec fn records_report(
    rs: Seq<RawItemRecord>,
    sprints: Seq<RawSprintRecord>,
    columns: Seq<String>,
    o_ids: Seq<Seq<Seq<char>>>,
    o_scopes: Seq<Seq<Seq<char>>>,
    o_names: Seq<Seq<Seq<char>>>,
    pcs: Seq<Vec<String>>,
    dcs: Seq<Vec<String>>,
) -> Seq<IssueView> {
    let locs = item_locations(rs);
    let n = rs.len() as int;
    each_item_issues(rs, columns) + group_issues(
        locs,
        repeated_in(item_keys(rs), o_ids),
        "item ID "@,
        "run pinto doctor --fix to renumber duplicates, or resolve them manually"@,
    ) + missing_ref_issues(
        DoctorIssueKind::DanglingParent,
        locs,
        parent_refs(rs, n),
        known_items(rs),
        "item "@,
        " refers to missing parent "@,
        "remove the parent field or set it to an existing PBI ID"@,
    ) + missing_ref_issues(
        DoctorIssueKind::DanglingDependency,
        locs,
        dependency_refs(rs, n),
        known_items(rs),
        "item "@,
        " depends on missing item "@,
        "remove the dependency or set it to an existing PBI ID"@,
    ) + missing_ref_issues(
        DoctorIssueKind::DanglingSprint,
        locs,
        sprint_refs(rs, n),
        known_sprints(sprints),
        "item refers to missing sprint "@,
        seq![],
        "remove the sprint field or set it to an existing sprint ID"@,
    ) + scope_issues(locs, repeated_in(scope_keys(rs, columns), o_scopes)) + collision_issues(
        rs,
        locs,
        repeated_in(name_keys(rs), o_names),
    ) + cycle_issues(
        DoctorIssueKind::ParentCycle,
        "parent relationship cycle: "@,
        "remove or change one parent field in the cycle manually"@,
        lists_view(pcs),
    ) + cycle_issues(
        DoctorIssueKind::DependencyCycle,
        "dependency relationship cycle: "@,
        "remove or change one dependency in the cycle manually"@,
        lists_view(dcs),
    )
}

/// What each item record shows by itself, and the record locations.
fn per_item_findings(records: &Vec<RawItemRecord>, columns: &Vec<String>) -> (r: (Vec<DoctorIssue>, Vec<String>))
    ensures
        issues_view(r.0@) == each_item_issues(records@, columns@),
        views(r.1@) == item_locations(records@),
{
    let mut issues: Vec<DoctorIssue> = Vec::new();
    let mut locs: Vec<String> = Vec::new();
    let n = records.len();
    let mut i: usize = 0;
    while i < n
        invariant
            n == records@.len(),
            i <= n,
            issues_view(issues@) == each_item_issues(records@.take(i as int), columns@),
            views(locs@) == item_locations(records@.take(i as int)),
        decreases n - i,
    {
        let found = item_record_findings(&records[i], columns);
        append_issues(&mut issues, found);
        let ghost lb = locs@;
        locs.push(records[i].location.clone());
        proof {
            let t = records@.take(i + 1);
            assert(t.drop_last() =~= records@.take(i as int));
            assert(t.last() == records@[i as int]);
            assert(views(locs@) =~= item_locations(t)) by {
                assert(views(locs@) =~= views(lb).push(records@[i as int].location@));
            }
        }
        i = i + 1;
    }
    assert(records@.take(n as int) =~= records@);
    (issues, locs)
}

/// Findings on the item records: what each shows by itself, in record order; then records that
/// share an ID (IDs in string order); references to missing parents, dependencies and sprints
/// (in record order); ranks shared within one status and parent scope (scopes in order); file
/// names present in both the task and the archive files (names in order); and the cycles of the
/// parent and the dependency graphs.
pub fn analyze_records(
    records: &Vec<RawItemRecord>,
    sprints: &Vec<RawSprintRecord>,
    columns: &Vec<String>,
) -> (issues: Vec<DoctorIssue>)
    ensures
        exists|
            o_ids: Seq<Seq<Seq<char>>>,
            o_scopes: Seq<Seq<Seq<char>>>,
            o_names: Seq<Seq<Seq<char>>>,
            pg: Seq<(String, Vec<String>)>,
            dg: Seq<(String, Vec<String>)>,
            pcs: Seq<Vec<String>>,
            dcs: Seq<Vec<String>>,
        |
            #[trigger] records_basis(records@, columns@, o_ids, o_scopes, o_names, pg, dg, pcs, dcs)
                && issues_view(issues@) == records_report(
                records@,
                sprints@,
                columns@,
                o_ids,
                o_scopes,
                o_names,
                pcs,
                dcs,
            ),
{
    let (mut issues, locs) = per_item_findings(records, columns);
    let n = records.len();
    let ghost rs = records@;
    let ghost s0 = issues_view(issues@);

    let id_keys = collect_item_keys(records);
    let id_groups = repeated_groups(&id_keys);
    let ghost o_ids = choose|order: Seq<Seq<Seq<char>>>|
        key_order(keys_view(id_keys@), order) && #[trigger] repeated_in(keys_view(id_keys@), order)
            == groups_view(id_groups@);
    assert(keys_view(id_keys@).len() == locs@.len()) by {
        assert(views(locs@).len() == locs@.len());
    }
    duplicate_findings(
        &mut issues,
        &locs,
        &id_groups,
        "item ID ",
        "run pinto doctor --fix to renumber duplicates, or resolve them manually",
        Ghost(keys_view(id_keys@)),
        Ghost(o_ids),
    );
    let ghost s1 = issues_view(issues@);

    let known = known_item_ids(records);
    let prefs = collect_parent_refs(records);
    proof {
        lemma_parent_refs_range(rs, n as int);
        assert(views(locs@).len() == locs@.len());
        assert forall|k: int| 0 <= k < prefs@.len() implies (#[trigger] prefs@[k]).0 < locs@.len() by {
            assert(refs_view(prefs@)[k].0 == prefs@[k].0 as int);
            assert(parent_refs(rs, n as int)[k].0 < n);
        }
    }
    missing_ref_findings(
        &mut issues,
        DoctorIssueKind::DanglingParent,
        &locs,
        &prefs,
        &known,
        "item ",
        " refers to missing parent ",
        "remove the parent field or set it to an existing PBI ID",
        Ghost(known_items(rs)),
    );
    let ghost s2 = issues_view(issues@);
    let drefs = collect_dependency_refs(records);
    proof {
        lemma_dependency_refs_range(rs, n as int);
        assert(views(locs@).len() == locs@.len());
        assert forall|k: int| 0 <= k < drefs@.len() implies (#[trigger] drefs@[k]).0 < locs@.len() by {
            assert(refs_view(drefs@)[k].0 == drefs@[k].0 as int);
            assert(dependency_refs(rs, n as int)[k].0 < n);
        }
    }
    missing_ref_findings(
        &mut issues,
        DoctorIssueKind::DanglingDependency,
        &locs,
        &drefs,
        &known,
        "item ",
        " depends on missing item ",
        "remove the dependency or set it to an existing PBI ID",
        Ghost(known_items(rs)),
    );
    let ghost s3 = issues_view(issues@);
    let known_sprint = known_sprint_ids(sprints);
    let srefs = collect_sprint_refs(records);
    proof {
        lemma_sprint_refs_range(rs, n as int);
        assert(views(locs@).len() == locs@.len());
        assert forall|k: int| 0 <= k < srefs@.len() implies (#[trigger] srefs@[k]).0 < locs@.len() by {
            assert(refs_view(srefs@)[k].0 == srefs@[k].0 as int);
            assert(sprint_refs(rs, n as int)[k].0 < n);
        }
        reveal_strlit("");
    }
    missing_ref_findings(
        &mut issues,
        DoctorIssueKind::DanglingSprint,
        &locs,
        &srefs,
        &known_sprint,
        "item refers to missing sprint ",
        "",
        "remove the sprint field or set it to an existing sprint ID",
        Ghost(known_sprints(sprints@)),
    );
    let ghost s4 = issues_view(issues@);

    let scope_keys_v = collect_scope_keys(records, columns);
    let scope_groups = repeated_groups(&scope_keys_v);
    let ghost o_scopes = choose|order: Seq<Seq<Seq<char>>>|
        key_order(keys_view(scope_keys_v@), order) && #[trigger] repeated_in(keys_view(scope_keys_v@), order)
            == groups_view(scope_groups@);
    proof {
        lemma_groups_hold(keys_view(scope_keys_v@), o_scopes);
        assert(views(locs@).len() == locs@.len());
        let kv = keys_view(scope_keys_v@);
        assert forall|i: int| 0 <= i < kv.len() && kv[i] is Some implies (#[trigger] kv[i]).unwrap().len() == 3 by {
            assert(kv[i] == scope_key(rs[i], columns@));
        }
    }
    scope_findings(&mut issues, &locs, &scope_groups, Ghost(keys_view(scope_keys_v@)));
    let ghost s5 = issues_view(issues@);

    let name_keys_v = collect_name_keys(records);
    let name_groups = repeated_groups(&name_keys_v);
    let ghost o_names = choose|order: Seq<Seq<Seq<char>>>|
        key_order(keys_view(name_keys_v@), order) && #[trigger] repeated_in(keys_view(name_keys_v@), order)
            == groups_view(name_groups@);
    proof {
        lemma_groups_hold(keys_view(name_keys_v@), o_names);
        assert(views(locs@).len() == locs@.len());
        let kv = keys_view(name_keys_v@);
        assert forall|i: int| 0 <= i < kv.len() && kv[i] is Some implies (#[trigger] kv[i]).unwrap().len() == 1 by {
            assert(kv[i] == name_key(rs[i]));
        }
    }
    collision_findings(&mut issues, records, &locs, &name_groups, Ghost(keys_view(name_keys_v@)));
    let ghost s6 = issues_view(issues@);

    let pg = edges_from(&prefs);
    let pcs = crate::graph::graph_cycles(&pg);
    cycle_findings(
        &mut issues,
        DoctorIssueKind::ParentCycle,
        "parent relationship cycle: ",
        "remove or change one parent field in the cycle manually",
        &pcs,
    );
    let ghost s7 = issues_view(issues@);
    let dg = edges_from(&drefs);
    let dcs = crate::graph::graph_cycles(&dg);
    cycle_findings(
        &mut issues,
        DoctorIssueKind::DependencyCycle,
        "dependency relationship cycle: ",
        "remove or change one dependency in the cycle manually",
        &dcs,
    );
    proof {
        reveal_strlit("");
        assert(""@ =~= Seq::<char>::empty());
        let locs_v = item_locations(rs);
        assert(s0 == each_item_issues(rs, columns@));
        assert(s1 == s0 + group_issues(locs_v, repeated_in(item_keys(rs), o_ids), "item ID "@,
            "run pinto doctor --fix to renumber duplicates, or resolve them manually"@));
        assert(s2 == s1 + missing_ref_issues(DoctorIssueKind::DanglingParent, locs_v, parent_refs(rs, n as int),
            known_items(rs), "item "@, " refers to missing parent "@, "remove the parent field or set it to an existing PBI ID"@));
        assert(s3 == s2 + missing_ref_issues(DoctorIssueKind::DanglingDependency, locs_v, dependency_refs(rs, n as int),
            known_items(rs), "item "@, " depends on missing item "@, "remove the dependency or set it to an existing PBI ID"@));
        assert(s4 == s3 + missing_ref_issues(DoctorIssueKind::DanglingSprint, locs_v, sprint_refs(rs, n as int),
            known_sprints(sprints@), "item refers to missing sprint "@, seq![], "remove the sprint field or set it to an existing sprint ID"@));
        assert(s5 == s4 + scope_issues(locs_v, repeated_in(scope_keys(rs, columns@), o_scopes)));
        assert(s6 == s5 + collision_issues(rs, locs_v, repeated_in(name_keys(rs), o_names)));
        assert(records_basis(rs, columns@, o_ids, o_scopes, o_names, pg@, dg@, pcs@, dcs@));
        assert(s7 == s6 + cycle_issues(DoctorIssueKind::ParentCycle, "parent relationship cycle: "@,
            "remove or change one parent field in the cycle manually"@, lists_view(pcs@)));
        assert(issues_view(issues@) == s7 + cycle_issues(DoctorIssueKind::DependencyCycle, "dependency relationship cycle: "@,
            "remove or change one dependency in the cycle manually"@, lists_view(dcs@)));
        assert(issues_view(issues@) == records_report(rs, sprints@, columns@, o_ids, o_scopes, o_names, pcs@, dcs@));
    }
    issues
}

// ---------------------------------------------------------------------------------------------
// Action sources
// ---------------------------------------------------------------------------------------------

/// The record kind a source names, by its persisted name.
pub open spec fn source_kind(k: Seq<char>) -> Option<SprintRecordKind> {
    if k == "retro"@ {
        Some(SprintRecordKind::Retro)
    } else if k == "review"@ {
        Some(SprintRecordKind::Review)
    } else {
        None
    }
}

/// The child records present, as values.
pub open spec fn children_view(c: Seq<(SprintRecordKind, String)>) -> Set<(SprintRecordKind, Seq<char>)> {
    Set::new(|x: (SprintRecordKind, Seq<char>)| exists|k: int| 0 <= k < c.len() && (#[trigger] c[k]).0 == x.0 && c[k].1@ == x.1)
}

/// What an item's `[source]` link shows, given the valid sprint IDs and the child records present.
pub open spec fn source_issues(
    r: RawItemRecord,
    sprints: Set<Seq<char>>,
    children: Set<(SprintRecordKind, Seq<char>)>,
) -> Seq<IssueView> {
    let loc = r.location@;
    match r.source {
        RawField::Missing => seq![],
        RawField::Invalid(e) => seq![
            (
                DoctorIssueKind::DanglingSprint,
                loc,
                e@,
                "remove the [source] table or restore its kind and sprint_id fields"@,
            ),
        ],
        RawField::Present(src) => match source_kind(src.kind@) {
            None => seq![
                (
                    DoctorIssueKind::DanglingSprint,
                    loc,
                    "action source kind is invalid: "@ + debug_text(src.kind@),
                    "set source.kind to `retro` or `review`, or remove the [source] table"@,
                ),
            ],
            Some(kind) => if !is_sprint_slug(src.sprint_id@) {
                seq![
                    (
                        DoctorIssueKind::DanglingSprint,
                        loc,
                        "action source sprint reference is invalid: "@ + debug_text(src.sprint_id@),
                        "set source.sprint_id to an existing sprint ID, or remove the [source] table"@,
                    ),
                ]
            } else if !sprints.contains(src.sprint_id@) {
                seq![
                    (
                        DoctorIssueKind::DanglingSprint,
                        loc,
                        "action PBI refers to missing sprint "@ + src.sprint_id@ + " through its "@
                            + kind.display() + " source"@,
                        "clear the [source] link or restore the sprint"@,
                    ),
                ]
            } else if !children.contains((kind, src.sprint_id@)) {
                seq![
                    (
                        DoctorIssueKind::DanglingSprint,
                        loc,
                        "action PBI refers to missing "@ + kind.display() + " "@ + src.sprint_id@,
                        "clear the [source] link or restore the record"@,
                    ),
                ]
            } else {
                seq![]
            },
        },
    }
}

/// What the `[source]` links of the records show, in record order.
pub open spec fn each_source_issues(
    rs: Seq<RawItemRecord>,
    sprints: Set<Seq<char>>,
    children: Set<(SprintRecordKind, Seq<char>)>,
) -> Seq<IssueView>
    decreases rs.len(),
{
    if rs.len() == 0 {
        seq![]
    } else {
        each_source_issues(rs.drop_last(), sprints, children) + source_issues(rs.last(), sprints, children)
    }
}

fn child_present(children: &Vec<(SprintRecordKind, String)>, kind: SprintRecordKind, id: &String) -> (r: bool)
    ensures
        r == children_view(children@).contains((kind, id@)),
{
    let n = children.len();
    let mut k: usize = 0;
    while k < n
        invariant
            n == children@.len(),
            k <= n,
            forall|j: int| 0 <= j < k ==> !((#[trigger] children@[j]).0 == kind && children@[j].1@ == id@),
        decreases n - k,
    {
        if children[k].0 == kind && children[k].1 == *id {
            assert(children_view(children@).contains((kind, id@)));
            return true;
        }
        k = k + 1;
    }
    false
}

fn source_findings(
    out: &mut Vec<DoctorIssue>,
    r: &RawItemRecord,
    known: &Vec<String>,
    children: &Vec<(SprintRecordKind, String)>,
    Ghost(sprint_set): Ghost<Set<Seq<char>>>,
)
    requires
        is_strictly_sorted(known@),
        forall|t: Seq<char>| views(known@).contains(t) <==> sprint_set.contains(t),
    ensures
        issues_view(final(out)@) == issues_view(old(out)@) + source_issues(*r, sprint_set, children_view(children@)),
{
    let ghost s0 = issues_view(out@);
    let loc = r.location.as_str();
    match &r.source {
        RawField::Missing => {},
        RawField::Invalid(e) => {
            push_issue(
                out,
                DoctorIssueKind::DanglingSprint,
                loc,
                e.clone(),
                "remove the [source] table or restore its kind and sprint_id fields",
            );
        },
        RawField::Present(src) => {
            let kind = if text_eq(src.kind.as_str(), "retro") {
                Some(SprintRecordKind::Retro)
            } else if text_eq(src.kind.as_str(), "review") {
                Some(SprintRecordKind::Review)
            } else {
                None
            };
            match kind {
                None => {
                    let q = quoted(src.kind.as_str());
                    push_issue(
                        out,
                        DoctorIssueKind::DanglingSprint,
                        loc,
                        cat("action source kind is invalid: ", q.as_str()),
                        "set source.kind to `retro` or `review`, or remove the [source] table",
                    );
                },
                Some(kind) => {
                    if !slug_is_valid(&src.sprint_id) {
                        let q = quoted(src.sprint_id.as_str());
                        push_issue(
                            out,
                            DoctorIssueKind::DanglingSprint,
                            loc,
                            cat("action source sprint reference is invalid: ", q.as_str()),
                            "set source.sprint_id to an existing sprint ID, or remove the [source] table",
                        );
                    } else {
                        let found = find_sorted(known, &src.sprint_id);
                        proof {
                            if let Some(j) = found {
                                assert(views(known@)[j as int] == src.sprint_id@);
                            } else if views(known@).contains(src.sprint_id@) {
                                let j = choose|j: int| 0 <= j < views(known@).len() && views(known@)[j] == src.sprint_id@;
                                assert(known@[j]@ == src.sprint_id@);
                            }
                        }
                        if found.is_none() {
                            let mut detail = cat4(
                                "action PBI refers to missing sprint ",
                                src.sprint_id.as_str(),
                                " through its ",
                                kind.display_name(),
                            );
                            detail.append(" source");
                            push_issue(out, DoctorIssueKind::DanglingSprint, loc, detail, "clear the [source] link or restore the sprint");
                        } else if !child_present(children, kind, &src.sprint_id) {
                            push_issue(
                                out,
                                DoctorIssueKind::DanglingSprint,
                                loc,
                                cat4("action PBI refers to missing ", kind.display_name(), " ", src.sprint_id.as_str()),
                                "clear the [source] link or restore the record",
                            );
                        }
                    }
                },
            }
        },
    }
    assert(issues_view(out@) =~= s0 + source_issues(*r, sprint_set, children_view(children@)));
}

/// Findings on action items whose `[source]` link is malformed or names a sprint or child record
/// that is not there, in record order.
pub fn analyze_action_sources(
    records: &Vec<RawItemRecord>,
    sprints: &Vec<RawSprintRecord>,
    children: &Vec<(SprintRecordKind, String)>,
) -> (issues: Vec<DoctorIssue>)
    ensures
        issues_view(issues@) == each_source_issues(records@, known_sprints(sprints@), children_view(children@)),
{
    let known = known_sprint_ids(sprints);
    let mut issues: Vec<DoctorIssue> = Vec::new();
    let n = records.len();
    let mut i: usize = 0;
    while i < n
        invariant
            n == records@.len(),
            i <= n,
            is_strictly_sorted(known@),
            forall|t: Seq<char>| views(known@).contains(t) <==> known_sprints(sprints@).contains(t),
            issues_view(issues@) == each_source_issues(records@.take(i as int), known_sprints(sprints@), children_view(children@)),
        decreases n - i,
    {
        proof {
            let t = records@.take(i + 1);
            assert(t.drop_last() =~= records@.take(i as int));
            assert(t.last() == records@[i as int]);
        }
        source_findings(&mut issues, &records[i], &known, children, Ghost(known_sprints(sprints@)));
        i = i + 1;
    }
    assert(records@.take(n as int) =~= records@);
    issues
}

// ---------------------------------------------------------------------------------------------
// Issued IDs
// ---------------------------------------------------------------------------------------------

/// The ID an item record holds, whatever the state of the rest of its frontmatter.
pub open spec fn record_valid_id(r: RawItemRecord) -> Option<IdView> {
    match r.id {
        RawField::Present(raw) => id_of_text(raw@),
        _ => None,
    }
}

pub open spec fn valid_id_key(r: RawItemRecord) -> Option<Seq<Seq<char>>> {
    match record_valid_id(r) {
        Some(v) => Some(seq![id_text(v)]),
        None => None,
    }
}

pub open spec fn valid_id_keys(rs: Seq<RawItemRecord>) -> Seq<Option<Seq<Seq<char>>>> {
    Seq::new(rs.len(), |i: int| valid_id_key(rs[i]))
}

/// A line of the history: its location, a colon, and the line number.
pub open spec fn line_location(loc: Seq<char>, line: usize) -> Seq<char> {
    loc + ":"@ + decimal(line as nat)
}

/// One finding per line of the history that holds no ID.
pub open spec fn invalid_line_issues(loc: Seq<char>, lines: Seq<(usize, String)>) -> Seq<IssueView>
    decreases lines.len(),
{
    if lines.len() == 0 {
        seq![]
    } else {
        invalid_line_issues(loc, lines.drop_last()) + seq![
            (
                DoctorIssueKind::IssuedId,
                line_location(loc, lines.last().0),
                "issued ID is invalid: "@ + lines.last().1@,
                "remove the invalid line from issued_ids"@,
            ),
        ]
    }
}

/// One finding per line of the history that repeats an ID.
pub open spec fn duplicate_line_issues(loc: Seq<char>, lines: Seq<(usize, String)>) -> Seq<IssueView>
    decreases lines.len(),
{
    if lines.len() == 0 {
        seq![]
    } else {
        duplicate_line_issues(loc, lines.drop_last()) + seq![
            (
                DoctorIssueKind::IssuedId,
                line_location(loc, lines.last().0),
                "issued ID "@ + lines.last().1@ + " is duplicated"@,
                "remove the duplicate line from issued_ids"@,
            ),
        ]
    }
}

/// The IDs the history lists.
pub open spec fn issued_set(ids: Seq<ItemId>) -> Set<IdView> {
    Set::new(|v: IdView| exists|k: int| 0 <= k < ids.len() && (#[trigger] ids[k])@ == v)
}

/// One finding per item ID, in string order, that the history does not list, located at the first
/// record that holds it.
pub open spec fn unissued_issues(
    rs: Seq<RawItemRecord>,
    issued: Set<IdView>,
    groups: Seq<(Seq<Seq<char>>, Seq<usize>)>,
) -> Seq<IssueView>
    decreases groups.len(),
{
    if groups.len() == 0 {
        seq![]
    } else {
        let g = groups.last();
        let r = rs[g.1[0] as int];
        unissued_issues(rs, issued, groups.drop_last()) + if issued.contains(record_valid_id(r).unwrap()) {
            seq![]
        } else {
            seq![
                (
                    DoctorIssueKind::IssuedId,
                    r.location@,
                    "item ID "@ + g.0[0] + " is missing from issued_ids"@,
                    "append the existing item ID to issued_ids or run pinto doctor --fix"@,
                ),
            ]
        }
    }
}

fn line_findings(out: &mut Vec<DoctorIssue>, loc: &String, lines: &Vec<(usize, String)>, invalid: bool)
    ensures
        issues_view(final(out)@) == issues_view(old(out)@) + if invalid {
            invalid_line_issues(loc@, lines@)
        } else {
            duplicate_line_issues(loc@, lines@)
        },
{
    let ghost s0 = issues_view(out@);
    let n = lines.len();
    let mut k: usize = 0;
    while k < n
        invariant
            n == lines@.len(),
            k <= n,
            issues_view(out@) == s0 + if invalid {
                invalid_line_issues(loc@, lines@.take(k as int))
            } else {
                duplicate_line_issues(loc@, lines@.take(k as int))
            },
        decreases n - k,
    {
        proof {
            assert(lines@.take(k + 1).drop_last() =~= lines@.take(k as int));
            assert(lines@.take(k + 1).last() == lines@[k as int]);
        }
        let number = decimal_count(lines[k].0);
        let place = cat3(loc.as_str(), ":", number.as_str());
        if invalid {
            push_issue(
                out,
                DoctorIssueKind::IssuedId,
                place.as_str(),
                cat("issued ID is invalid: ", lines[k].1.as_str()),
                "remove the invalid line from issued_ids",
            );
        } else {
            push_issue(
                out,
                DoctorIssueKind::IssuedId,
                place.as_str(),
                cat3("issued ID ", lines[k].1.as_str(), " is duplicated"),
                "remove the duplicate line from issued_ids",
            );
        }
        k = k + 1;
    }
    assert(lines@.take(n as int) =~= lines@);
}

fn id_issued(ids: &Vec<ItemId>, id: &ItemId) -> (r: bool)
    ensures
        r == issued_set(ids@).contains(id@),
{
    let n = ids.len();
    let mut k: usize = 0;
    while k < n
        invariant
            n == ids@.len(),
            k <= n,
            forall|j: int| 0 <= j < k ==> (#[trigger] ids@[j])@ != id@,
        decreases n - k,
    {
        if ids[k].same(id) {
            assert(issued_set(ids@).contains(id@));
            return true;
        }
        k = k + 1;
    }
    false
}

/// Findings on the history of issued item IDs: its lines that hold no ID, its lines that repeat
/// one, then each item ID (in string order) that it does not list.
pub fn analyze_issued(records: &Vec<RawItemRecord>, issued: &IssuedHistory) -> (issues: Vec<DoctorIssue>)
    ensures
        exists|order: Seq<Seq<Seq<char>>>|
            key_order(valid_id_keys(records@), order) && #[trigger] issues_view(issues@) == invalid_line_issues(
                issued.location@,
                issued.invalid@,
            ) + duplicate_line_issues(issued.location@, issued.duplicates@) + unissued_issues(
                records@,
                issued_set(issued.ids@),
                all_groups_in(valid_id_keys(records@), order),
            ),
{
    let mut issues: Vec<DoctorIssue> = Vec::new();
    assert(issues_view(issues@) =~= seq![]);
    line_findings(&mut issues, &issued.location, &issued.invalid, true);
    line_findings(&mut issues, &issued.location, &issued.duplicates, false);
    let ghost s0 = issues_view(issues@);
    let mut keys: Vec<Option<Vec<String>>> = Vec::new();
    let n = records.len();
    let mut i: usize = 0;
    while i < n
        invariant
            n == records@.len(),
            i <= n,
            keys_view(keys@) == valid_id_keys(records@.take(i as int)),
        decreases n - i,
    {
        let k = match &records[i].id {
            RawField::Present(raw) => match id_text_of(raw) {
                Some(t) => one_key(&t),
                None => None,
            },
            _ => None,
        };
        let ghost before = keys@;
        keys.push(k);
        assert(keys_view(keys@) =~= valid_id_keys(records@.take(i + 1))) by {
            assert(keys_view(keys@) =~= keys_view(before).push(keys_view(keys@)[i as int]));
        }
        i = i + 1;
    }
    assert(records@.take(n as int) =~= records@);
    let groups = keyed_groups(&keys);
    let ghost order = choose|order: Seq<Seq<Seq<char>>>|
        key_order(keys_view(keys@), order) && #[trigger] all_groups_in(keys_view(keys@), order) == groups_view(groups@);
    proof {
        lemma_all_groups_in(keys_view(keys@), order);
    }
    let ghost gs = groups_view(groups@);
    let g_count = groups.len();
    let mut k: usize = 0;
    while k < g_count
        invariant
            g_count == groups@.len(),
            k <= g_count,
            n == records@.len(),
            gs == groups_view(groups@),
            gs == all_groups_in(valid_id_keys(records@), order),
            forall|k2: int|
                0 <= k2 < gs.len() ==> {
                    let g = #[trigger] gs[k2];
                    &&& g.1.len() >= 1
                    &&& forall|j: int| 0 <= j < g.1.len() ==> #[trigger] g.1[j] < n
                    &&& forall|j: int| 0 <= j < g.1.len() ==> valid_id_keys(records@)[#[trigger] g.1[j] as int] == Some(g.0)
                },
            issues_view(issues@) == s0 + unissued_issues(records@, issued_set(issued.ids@), gs.take(k as int)),
        decreases g_count - k,
    {
        proof {
            let g = gs[k as int];
            assert(g == (views(groups@[k as int].0@), groups@[k as int].1@));
            assert(groups@[k as int].1@.len() >= 1);
        }
        let first = groups[k].1[0];
        proof {
            let g = gs[k as int];
            assert(gs.take(k + 1).drop_last() =~= gs.take(k as int));
            assert(gs.take(k + 1).last() == g);
            assert(g.1[0] == first);
            assert(valid_id_keys(records@)[first as int] == Some(g.0));
        }
        let r = &records[first];
        let id = match &r.id {
            RawField::Present(raw) => ItemId::parse(raw.as_str()),
            _ => None,
        };
        match id {
            Some(id) => {
                if !id_issued(&issued.ids, &id) {
                    let t = id.to_text();
                    push_issue(
                        &mut issues,
                        DoctorIssueKind::IssuedId,
                        r.location.as_str(),
                        cat3("item ID ", t.as_str(), " is missing from issued_ids"),
                        "append the existing item ID to issued_ids or run pinto doctor --fix",
                    );
                }
            },
            None => {},
        }
        k = k + 1;
    }
    assert(gs.take(g_count as int) =~= gs);
    issues
}

// ---------------------------------------------------------------------------------------------
// Reading the history of issued IDs
// ---------------------------------------------------------------------------------------------

/// Numbered lines taken by their text.
pub open spec fn numbered_view(s: Seq<(usize, String)>) -> Seq<(usize, Seq<char>)> {
    s.map_values(|p: (usize, String)| (p.0, p.1@))
}

/// What reading one more line (number `number`) makes of the IDs found so far, the lines that hold
/// no ID and the lines that repeat one. A line is taken without surrounding whitespace and skipped
/// when nothing is left; a line that is not an ID is kept in its quoted form; a repeated ID is
/// kept in its canonical form.
pub open spec fn issued_step(
    st: (Seq<IdView>, Seq<(usize, Seq<char>)>, Seq<(usize, Seq<char>)>),
    number: usize,
    line: Seq<char>,
) -> (Seq<IdView>, Seq<(usize, Seq<char>)>, Seq<(usize, Seq<char>)>) {
    let v = trimmed(line, true);
    if v.len() == 0 {
        st
    } else {
        match id_of_text(v) {
            Some(id) => if st.0.contains(id) {
                (st.0, st.1, st.2.push((number, id_text(id))))
            } else {
                (st.0.push(id), st.1, st.2)
            },
            None => (st.0, st.1.push((number, debug_text(v))), st.2),
        }
    }
}

/// What the lines of the history hold, read in order and numbered from 1.
pub open spec fn issued_scan(ls: Seq<Seq<char>>) -> (Seq<IdView>, Seq<(usize, Seq<char>)>, Seq<(usize, Seq<char>)>)
    decreases ls.len(),
{
    if ls.len() == 0 {
        (seq![], seq![], seq![])
    } else {
        issued_step(issued_scan(ls.drop_last()), ls.len() as usize, ls.last())
    }
}

/// The IDs found are all different.
proof fn lemma_issued_scan_distinct(ls: Seq<Seq<char>>)
    ensures
        issued_scan(ls).0.no_duplicates(),
    decreases ls.len(),
{
    if ls.len() > 0 {
        lemma_issued_scan_distinct(ls.drop_last());
    }
}

/// Reads one line of the history into what was found so far.
fn take_issued_line(
    ids: &mut Vec<ItemId>,
    invalid: &mut Vec<(usize, String)>,
    duplicates: &mut Vec<(usize, String)>,
    number: usize,
    line: &str,
)
    ensures
        (ids_view(final(ids)@), numbered_view(final(invalid)@), numbered_view(final(duplicates)@))
            == issued_step(
            (ids_view(old(ids)@), numbered_view(old(invalid)@), numbered_view(old(duplicates)@)),
            number,
            line@,
        ),
{
    let (a, b) = trim_bounds(line, true);
    if a == b {
        return;
    }
    let v = line.substring_char(a, b);
    match ItemId::parse(v) {
        Some(id) => {
            let seen = id_issued(ids, &id);
            proof {
                if seen {
                    let k = choose|k: int| 0 <= k < ids@.len() && (#[trigger] ids@[k])@ == id@;
                    assert(ids_view(ids@)[k] == id@);
                } else if ids_view(ids@).contains(id@) {
                    let k = choose|k: int| 0 <= k < ids_view(ids@).len() && ids_view(ids@)[k] == id@;
                    assert(issued_set(ids@).contains(id@));
                }
            }
            if seen {
                let ghost before = duplicates@;
                duplicates.push((number, id.to_text()));
                assert(numbered_view(duplicates@) =~= numbered_view(before).push((number, id_text(id@))));
            } else {
                let ghost before = ids@;
                ids.push(id);
                assert(ids_view(ids@) =~= ids_view(before).push(ids@.last()@));
            }
        },
        None => {
            let ghost before = invalid@;
            invalid.push((number, quoted(v)));
            assert(numbered_view(invalid@) =~= numbered_view(before).push((number, debug_text(v@))));
        },
    }
}

/// The history of issued IDs read from `text`, the contents of the file at `location` (empty when
/// there is no such file): each line, numbered from 1, is read in order as `issued_step` says.
/// Each ID is listed once, in the order first found.
pub fn read_issued_history(location: String, text: &str) -> (h: IssuedHistory)
    requires
        text@.len() < usize::MAX,
    ensures
        h.location@ == location@,
        (ids_view(h.ids@), numbered_view(h.invalid@), numbered_view(h.duplicates@)) == issued_scan(
            pieces(text@, '\n'),
        ),
        ids_view(h.ids@).no_duplicates(),
{
    let n = text.unicode_len();
    let mut ids: Vec<ItemId> = Vec::new();
    let mut invalid: Vec<(usize, String)> = Vec::new();
    let mut duplicates: Vec<(usize, String)> = Vec::new();
    let mut start: usize = 0;
    let mut number: usize = 1;
    let mut i: usize = 0;
    while i < n
        invariant
            n == text@.len(),
            n < usize::MAX,
            start <= i <= n,
            number <= i + 1,
            pieces(text@.take(i as int), '\n').len() == number,
            pieces(text@.take(i as int), '\n').last() == text@.subrange(start as int, i as int),
            (ids_view(ids@), numbered_view(invalid@), numbered_view(duplicates@)) == issued_scan(
                pieces(text@.take(i as int), '\n').drop_last(),
            ),
        decreases n - i,
    {
        let ghost before = pieces(text@.take(i as int), '\n');
        proof {
            lemma_pieces_nonempty(text@.take(i as int), '\n');
            assert(text@.take(i + 1).drop_last() =~= text@.take(i as int));
            assert(text@.take(i + 1).last() == text@[i as int]);
        }
        if text.get_char(i) == '\n' {
            let line = text.substring_char(start, i);
            take_issued_line(&mut ids, &mut invalid, &mut duplicates, number, line);
            proof {
                let after = pieces(text@.take(i + 1), '\n');
                assert(after == before.push(seq![]));
                assert(after.drop_last() =~= before);
                assert(before.drop_last().push(before.last()) =~= before);
            }
            start = i + 1;
            number = number + 1;
            proof {
                assert(text@.subrange(start as int, i + 1) =~= Seq::<char>::empty());
            }
        } else {
            proof {
                let after = pieces(text@.take(i + 1), '\n');
                assert(after == before.update(before.len() - 1, before.last().push(text@[i as int])));
                assert(after.last() =~= text@.subrange(start as int, i + 1));
                assert(after.drop_last() =~= before.drop_last());
            }
        }
        i = i + 1;
    }
    assert(text@.take(n as int) =~= text@);
    let last = text.substring_char(start, n);
    take_issued_line(&mut ids, &mut invalid, &mut duplicates, number, last);
    let ghost ps = pieces(text@, '\n');
    proof {
        lemma_pieces_nonempty(text@, '\n');
        assert(ps.drop_last().push(ps.last()) =~= ps);
        lemma_issued_scan_distinct(ps);
    }
    IssuedHistory { location, ids, invalid, duplicates }
}

} // verus!

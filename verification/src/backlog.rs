//! Product Backlog Items as the services read them.
//!
//! An item is identified by a `PREFIX-NUMBER` ID. Statuses, ranks, and sprint assignments are held
//! as strings; timestamps are nanoseconds since the Unix epoch (UTC).
use vstd::prelude::*;
use vstd::string::StringExecFns;

verus! {

/// Mathematical form of an item ID: its prefix and its number.
pub type IdView = (Seq<char>, u32);

/// Identifier of a backlog item, written `PREFIX-NUMBER` (for example `T-12`).
#[derive(Debug, PartialEq, Eq)]
pub struct ItemId {
    /// Project prefix before the dash.
    pub prefix: String,
    /// Sequence number after the dash.
    pub number: u32,
}

impl View for ItemId {
    type V = IdView;

    open spec fn view(&self) -> IdView {
        (self.prefix@, self.number)
    }
}

impl ItemId {
    /// Build an ID from its prefix and number.
    pub fn new(prefix: &str, number: u32) -> (id: ItemId)
        ensures
            id@ == (prefix@, number),
    {
        ItemId { prefix: prefix.to_owned(), number }
    }

    /// A copy of this ID.
    pub fn copy(&self) -> (id: ItemId)
        ensures
            id@ == self@,
    {
        ItemId { prefix: self.prefix.clone(), number: self.number }
    }

    /// Whether two IDs name the same item.
    pub fn same(&self, other: &ItemId) -> (b: bool)
        ensures
            b == (self@ == other@),
    {
        self.number == other.number && self.prefix == other.prefix
    }
}

/// ASCII decimal digit.
pub open spec fn is_digit(c: char) -> bool {
    '0' <= c <= '9'
}

/// ASCII letter or digit.
pub open spec fn is_alnum_char(c: char) -> bool {
    ('0' <= c <= '9') || ('A' <= c <= 'Z') || ('a' <= c <= 'z')
}

/// Value of a string of decimal digits.
pub open spec fn digits_value(d: Seq<char>) -> nat
    decreases d.len(),
{
    if d.len() == 0 {
        0
    } else {
        digits_value(d.drop_last()) * 10 + ((d.last() as int) - ('0' as int)) as nat
    }
}

/// Decimal digits of a number, without leading zeros (`0` for zero).
pub open spec fn decimal(n: nat) -> Seq<char>
    decreases n,
{
    if n < 10 {
        seq![(('0' as int) + n) as char]
    } else {
        decimal(n / 10).push((('0' as int) + n % 10) as char)
    }
}

/// `s` splits at position `p` into a non-empty alphanumeric prefix, a dash, and a non-empty run of
/// digits whose value fits in 32 bits.
pub open spec fn id_split_at(s: Seq<char>, p: int) -> bool {
    &&& 0 < p < s.len() - 1
    &&& s[p] == '-'
    &&& forall|i: int| 0 <= i < p ==> is_alnum_char(#[trigger] s[i])
    &&& forall|i: int| p < i < s.len() ==> is_digit(#[trigger] s[i])
    &&& digits_value(s.subrange(p + 1, s.len() as int)) <= u32::MAX
}

/// The ID written by `s` in `PREFIX-NUMBER` form, if `s` is one.
pub open spec fn id_of_text(s: Seq<char>) -> Option<IdView> {
    if exists|p: int| id_split_at(s, p) {
        let p = choose|p: int| id_split_at(s, p);
        Some((s.subrange(0, p), digits_value(s.subrange(p + 1, s.len() as int)) as u32))
    } else {
        None
    }
}

/// The text of an ID: prefix, dash, decimal number.
pub open spec fn id_text(id: IdView) -> Seq<char> {
    id.0 + seq!['-'] + decimal(id.1 as nat)
}

/// The one-character text of a decimal digit.
fn digit_text(d: u32) -> (r: &'static str)
    requires
        d < 10,
    ensures
        r@ == seq![(('0' as int) + d) as char],
{
    match d {
        0 => { proof { reveal_strlit("0"); } "0" },
        1 => { proof { reveal_strlit("1"); } "1" },
        2 => { proof { reveal_strlit("2"); } "2" },
        3 => { proof { reveal_strlit("3"); } "3" },
        4 => { proof { reveal_strlit("4"); } "4" },
        5 => { proof { reveal_strlit("5"); } "5" },
        6 => { proof { reveal_strlit("6"); } "6" },
        7 => { proof { reveal_strlit("7"); } "7" },
        8 => { proof { reveal_strlit("8"); } "8" },
        _ => { proof { reveal_strlit("9"); } "9" },
    }
}

fn char_is_alnum(c: char) -> (r: bool)
    ensures
        r == is_alnum_char(c),
{
    ('0' <= c && c <= '9') || ('A' <= c && c <= 'Z') || ('a' <= c && c <= 'z')
}

/// The decimal text of a number.
pub fn decimal_text(n: u32) -> (r: String)
    ensures
        r@ == decimal(n as nat),
    decreases n,
{
    let digit = digit_text(n % 10);
    if n < 10 {
        digit.to_owned()
    } else {
        let mut out = decimal_text(n / 10);
        out.append(digit);
        out
    }
}

/// The decimal text of a count.
pub fn decimal_count(n: usize) -> (r: String)
    ensures
        r@ == decimal(n as nat),
    decreases n,
{
    let digit = digit_text((n % 10) as u32);
    if n < 10 {
        digit.to_owned()
    } else {
        let mut out = decimal_count(n / 10);
        out.append(digit);
        out
    }
}

impl ItemId {
    /// Parse `PREFIX-NUMBER`: a non-empty run of ASCII letters and digits, a dash, and a decimal
    /// number that fits in 32 bits.
    pub fn parse(s: &str) -> (r: Option<ItemId>)
        ensures
            match (r, id_of_text(s@)) {
                (Some(id), Some(v)) => id@ == v,
                (None, None) => true,
                _ => false,
            },
    {
        let n = s.unicode_len();
        // Find the dash after the prefix.
        let mut p: usize = 0;
        while p < n && char_is_alnum(s.get_char(p))
            invariant
                n == s@.len(),
                p <= n,
                forall|i: int| 0 <= i < p ==> is_alnum_char(#[trigger] s@[i]),
            decreases n - p,
        {
            p = p + 1;
        }
        if p == 0 || p >= n || s.get_char(p) != '-' || p + 1 >= n {
            proof {
                assert forall|q: int| !id_split_at(s@, q) by {
                    if id_split_at(s@, q) {
                        if q < p {
                            assert(is_alnum_char(s@[q]));
                        } else if q > p {
                            assert(is_alnum_char(s@[p as int]));
                        }
                    }
                }
            }
            return None;
        }
        let ghost dash = p as int;
        assert forall|q: int| id_split_at(s@, q) implies q == dash by {
            if q < p {
                assert(is_alnum_char(s@[q]));
            } else if q > p {
                assert(is_alnum_char(s@[p as int]));
            }
        }
        let mut value: u32 = 0;
        let mut k = p + 1;
        while k < n
            invariant
                n == s@.len(),
                dash == p,
                p + 1 <= k <= n,
                forall|q: int| id_split_at(s@, q) ==> q == dash,
                forall|i: int| p < i < k ==> is_digit(#[trigger] s@[i]),
                value as nat == digits_value(s@.subrange(p + 1, k as int)),
            decreases n - k,
        {
            let c = s.get_char(k);
            if !('0' <= c && c <= '9') {
                proof {
                    assert forall|q: int| !id_split_at(s@, q) by {
                        if id_split_at(s@, q) {
                            assert(q == dash);
                            assert(is_digit(s@[k as int]));
                        }
                    }
                }
                return None;
            }
            let d = (c as u32) - 48;
            assert(s@.subrange(p + 1, k + 1).drop_last() =~= s@.subrange(p + 1, k as int));
            if value > 429496729 || (value == 429496729 && d > 5) {
                proof {
                    assert forall|q: int| !id_split_at(s@, q) by {
                        if id_split_at(s@, q) {
                            assert(q == dash);
                            let whole = s@.subrange(p + 1, n as int);
                            assert forall|i: int| 0 <= i < whole.len() implies is_digit(#[trigger] whole[i]) by {
                                assert(whole[i] == s@[p + 1 + i]);
                            }
                            lemma_digits_prefix_bound(whole, (k + 1 - (p + 1)) as int);
                            assert(whole.subrange(0, (k + 1 - (p + 1)) as int) =~= s@.subrange(p + 1, k + 1));
                        }
                    }
                }
                return None;
            }
            value = value * 10 + d;
            k = k + 1;
        }
        let prefix = s.substring_char(0, p);
        proof {
            assert(s@.subrange(p + 1, n as int) == s@.subrange(p + 1, k as int));
            assert(id_split_at(s@, p as int));
        }
        Some(ItemId { prefix: prefix.to_owned(), number: value })
    }

    /// The `PREFIX-NUMBER` text of this ID.
    pub fn to_text(&self) -> (r: String)
        ensures
            r@ == id_text(self@),
    {
        let mut out = self.prefix.clone();
        proof {
            reveal_strlit("-");
        }
        out.append("-");
        let digits = decimal_text(self.number);
        out.append(digits.as_str());
        out
    }
}

/// A digit string's value is at least the value of any of its prefixes.
proof fn lemma_digits_prefix_bound(d: Seq<char>, k: int)
    requires
        0 <= k <= d.len(),
        forall|i: int| 0 <= i < d.len() ==> is_digit(#[trigger] d[i]),
    ensures
        digits_value(d.subrange(0, k)) <= digits_value(d),
    decreases d.len() - k,
{
    if k < d.len() {
        lemma_digits_prefix_bound(d, k + 1);
        let a = d.subrange(0, k);
        let b = d.subrange(0, k + 1);
        assert(b.drop_last() =~= a);
        assert(digits_value(b) == digits_value(a) * 10 + ((b.last() as int) - ('0' as int)) as nat);
    } else {
        assert(d.subrange(0, k) =~= d);
    }
}

/// The view of an optional ID.
pub open spec fn opt_id(o: Option<ItemId>) -> Option<IdView> {
    match o {
        Some(id) => Some(id@),
        None => None,
    }
}

/// The view of an optional string.
pub open spec fn opt_str(o: Option<String>) -> Option<Seq<char>> {
    match o {
        Some(s) => Some(s@),
        None => None,
    }
}

/// Whether two optional IDs are equal.
pub fn same_opt_id(a: &Option<ItemId>, b: &Option<ItemId>) -> (r: bool)
    ensures
        r == (opt_id(*a) == opt_id(*b)),
{
    match (a, b) {
        (Some(x), Some(y)) => x.same(y),
        (None, None) => true,
        _ => false,
    }
}

/// A copy of an optional ID.
pub fn copy_opt_id(a: &Option<ItemId>) -> (r: Option<ItemId>)
    ensures
        opt_id(r) == opt_id(*a),
{
    match a {
        Some(x) => Some(x.copy()),
        None => None,
    }
}

/// A copy of an optional string.
pub fn copy_opt_str(a: &Option<String>) -> (r: Option<String>)
    ensures
        opt_str(r) == opt_str(*a),
{
    match a {
        Some(x) => Some(x.clone()),
        None => None,
    }
}

/// The views of a list of IDs.
pub open spec fn ids_view(ids: Seq<ItemId>) -> Seq<IdView> {
    ids.map_values(|id: ItemId| id@)
}

/// A copy of a list of IDs.
pub fn copy_ids(ids: &Vec<ItemId>) -> (r: Vec<ItemId>)
    ensures
        ids_view(r@) == ids_view(ids@),
{
    let mut out: Vec<ItemId> = Vec::new();
    let n = ids.len();
    for k in 0..n
        invariant
            n == ids@.len(),
            out@.len() == k,
            forall|j: int| 0 <= j < k ==> #[trigger] out@[j]@ == ids@[j]@,
    {
        out.push(ids[k].copy());
    }
    assert(ids_view(out@) =~= ids_view(ids@));
    out
}

/// The views of a list of strings.
pub open spec fn strs_view(v: Seq<String>) -> Seq<Seq<char>> {
    v.map_values(|s: String| s@)
}

/// Whether two optional strings are equal.
pub fn same_opt_str(a: &Option<String>, b: &Option<String>) -> (r: bool)
    ensures
        r == (opt_str(*a) == opt_str(*b)),
{
    match (a, b) {
        (Some(x), Some(y)) => crate::text::text_eq(x.as_str(), y.as_str()),
        (None, None) => true,
        _ => false,
    }
}

/// Whether two lists of strings are equal, entry by entry.
pub fn same_strs(a: &Vec<String>, b: &Vec<String>) -> (r: bool)
    ensures
        r == (strs_view(a@) == strs_view(b@)),
{
    if a.len() != b.len() {
        proof {
            assert(strs_view(a@).len() != strs_view(b@).len());
        }
        return false;
    }
    let n = a.len();
    let mut k: usize = 0;
    while k < n
        invariant
            n == a@.len(),
            n == b@.len(),
            k <= n,
            forall|j: int| 0 <= j < k ==> (#[trigger] a@[j])@ == b@[j]@,
        decreases n - k,
    {
        if !crate::text::text_eq(a[k].as_str(), b[k].as_str()) {
            proof {
                assert(strs_view(a@)[k as int] != strs_view(b@)[k as int]);
            }
            return false;
        }
        k = k + 1;
    }
    proof {
        assert(strs_view(a@) =~= strs_view(b@));
    }
    true
}

/// A copy of a list of strings.
pub fn copy_strs(v: &Vec<String>) -> (r: Vec<String>)
    ensures
        strs_view(r@) == strs_view(v@),
{
    let mut out: Vec<String> = Vec::new();
    let n = v.len();
    for k in 0..n
        invariant
            n == v@.len(),
            out@.len() == k,
            forall|j: int| 0 <= j < k ==> #[trigger] out@[j]@ == v@[j]@,
    {
        out.push(v[k].clone());
    }
    assert(strs_view(out@) =~= strs_view(v@));
    out
}

/// A Product Backlog Item (PBI).
#[derive(Debug)]
pub struct BacklogItem {
    /// Stable identifier.
    pub id: ItemId,
    /// Display title.
    pub title: String,
    /// Workflow status (a configured column name).
    pub status: String,
    /// Fractional-index rank; siblings are ordered by it.
    pub rank: String,
    /// Story points, when estimated.
    pub points: Option<u32>,
    /// Parent item, when the item is a child.
    pub parent: Option<ItemId>,
    /// Items this item depends on.
    pub depends_on: Vec<ItemId>,
    /// Assigned sprint ID.
    pub sprint: Option<String>,
    /// Labels.
    pub labels: Vec<String>,
    /// Creation time (nanoseconds since the Unix epoch).
    pub created: i64,
    /// Completion time (nanoseconds since the Unix epoch), when done.
    pub done_at: Option<i64>,
    /// Markdown body.
    pub body: String,
    /// Assignee, when someone holds the item.
    pub assignee: Option<String>,
    /// When work started (nanoseconds since the Unix epoch).
    pub start_at: Option<i64>,
    /// Linked commit SHAs.
    pub commits: Vec<String>,
    /// Last update time (nanoseconds since the Unix epoch).
    pub updated: i64,
    /// The Retro or Review an action item was promoted from.
    pub source: Option<ActionSource>,
}

/// The Retro or Review an action item was promoted from.
#[derive(Debug, PartialEq, Eq)]
pub struct ActionSource {
    pub kind: crate::sprint_record::SprintRecordKind,
    /// The sprint the record belongs to.
    pub sprint_id: String,
}

/// The view of an optional source.
pub open spec fn opt_source(o: Option<ActionSource>) -> Option<(crate::sprint_record::SprintRecordKind, Seq<char>)> {
    match o {
        Some(s) => Some((s.kind, s.sprint_id@)),
        None => None,
    }
}

impl BacklogItem {
    /// Whether two items hold the same values in every field.
    pub open spec fn same_as(self, other: BacklogItem) -> bool {
        &&& self.id@ == other.id@
        &&& self.title@ == other.title@
        &&& self.status@ == other.status@
        &&& self.rank@ == other.rank@
        &&& self.points == other.points
        &&& opt_id(self.parent) == opt_id(other.parent)
        &&& ids_view(self.depends_on@) == ids_view(other.depends_on@)
        &&& opt_str(self.sprint) == opt_str(other.sprint)
        &&& strs_view(self.labels@) == strs_view(other.labels@)
        &&& self.created == other.created
        &&& self.done_at == other.done_at
        &&& self.body@ == other.body@
        &&& opt_str(self.assignee) == opt_str(other.assignee)
        &&& self.start_at == other.start_at
        &&& strs_view(self.commits@) == strs_view(other.commits@)
        &&& self.updated == other.updated
        &&& opt_source(self.source) == opt_source(other.source)
    }

    /// A new item with the given identity, title, status, and rank, created and last updated at
    /// `created`; every other field is empty.
    pub fn new(id: ItemId, title: &str, status: &str, rank: &str, created: i64) -> (item: BacklogItem)
        ensures
            item.id@ == id@,
            item.title@ == title@,
            item.status@ == status@,
            item.rank@ == rank@,
            item.points.is_none(),
            item.parent.is_none(),
            item.depends_on@.len() == 0,
            item.sprint.is_none(),
            item.labels@.len() == 0,
            item.created == created,
            item.done_at.is_none(),
            item.body@.len() == 0,
            item.assignee.is_none(),
            item.start_at.is_none(),
            item.commits@.len() == 0,
            item.updated == created,
            item.source.is_none(),
    {
        BacklogItem {
            id,
            title: title.to_owned(),
            status: status.to_owned(),
            rank: rank.to_owned(),
            points: None,
            parent: None,
            depends_on: Vec::new(),
            sprint: None,
            labels: Vec::new(),
            created,
            done_at: None,
            body: String::new(),
            assignee: None,
            start_at: None,
            commits: Vec::new(),
            updated: created,
            source: None,
        }
    }

    /// A field-by-field copy of this item.
    pub fn copy(&self) -> (r: BacklogItem)
        ensures
            r.same_as(*self),
    {
        BacklogItem {
            id: self.id.copy(),
            title: self.title.clone(),
            status: self.status.clone(),
            rank: self.rank.clone(),
            points: self.points,
            parent: copy_opt_id(&self.parent),
            depends_on: copy_ids(&self.depends_on),
            sprint: copy_opt_str(&self.sprint),
            labels: copy_strs(&self.labels),
            created: self.created,
            done_at: self.done_at,
            body: self.body.clone(),
            assignee: copy_opt_str(&self.assignee),
            start_at: self.start_at,
            commits: copy_strs(&self.commits),
            updated: self.updated,
            source: match &self.source {
                Some(s) => Some(ActionSource { kind: s.kind, sprint_id: s.sprint_id.clone() }),
                None => None,
            },
        }
    }
}

/// The IDs of a list of items.
pub open spec fn item_ids(items: Seq<BacklogItem>) -> Seq<IdView> {
    items.map_values(|it: BacklogItem| it.id@)
}

/// Whether some item in the list has the given ID.
pub open spec fn has_id(items: Seq<BacklogItem>, id: IdView) -> bool {
    exists|j: int| 0 <= j < items.len() && #[trigger] items[j].id@ == id
}

/// Whether some item in the list has the given ID.
pub fn contains_id(items: &[BacklogItem], id: &ItemId) -> (r: bool)
    ensures
        r == has_id(items@, id@),
{
    let n = items.len();
    for k in 0..n
        invariant
            n == items@.len(),
            forall|j: int| 0 <= j < k ==> #[trigger] items@[j].id@ != id@,
    {
        if items[k].id.same(id) {
            return true;
        }
    }
    false
}

} // verus!

//! Linking commits to PBIs by the IDs their messages mention.
use crate::backlog::{id_text, strs_view, BacklogItem, ItemId};
use crate::order::{indices_where, lemma_indices_where};
use crate::text::{char_is_space, is_space};
use vstd::utf8::encode_utf8;
use crate::text::{byte_is_alnum, is_ascii_alnum};
use vstd::prelude::*;
use vstd::string::StringSliceAdditionalSpecFns;

verus! {

/// Result of linking or unlinking commits on one PBI.
#[derive(Debug)]
pub struct LinkOutcome {
    /// The PBI after the change.
    pub item: BacklogItem,
    /// The commit SHAs that were actually added or removed.
    pub changed: Vec<String>,
}

/// Links discovered by scanning the commit history.
#[derive(Debug)]
pub struct ScanOutcome {
    /// `(item, sha)` pairs that were newly linked.
    pub links: Vec<(ItemId, String)>,
}

/// `id` occurs in `message` at byte offset `p`, not glued to an ASCII letter or digit on either side.
pub open spec fn mentions_at(message: Seq<u8>, id: Seq<u8>, p: int) -> bool {
    &&& 0 <= p
    &&& p + id.len() <= message.len()
    &&& message.subrange(p, p + id.len()) == id
    &&& (p == 0 || !is_ascii_alnum(message[p - 1]))
    &&& (p + id.len() >= message.len() || !is_ascii_alnum(message[p + id.len()]))
}

/// Whether `message` mentions `id` as a whole token.
pub open spec fn mentions(message: Seq<u8>, id: Seq<u8>) -> bool {
    exists|p: int| mentions_at(message, id, p)
}

fn matches_at(m: &[u8], id: &[u8], p: usize) -> (r: bool)
    requires
        p + id@.len() <= m@.len(),
    ensures
        r == (m@.subrange(p as int, p + id@.len()) == id@),
{
    let n = id.len();
    let ml = m.len();
    for k in 0..n
        invariant
            n == id@.len(),
            ml == m@.len(),
            p + n <= ml,
            forall|j: int| 0 <= j < k ==> m@[p + j] == id@[j],
    {
        if m[p + k] != id[k] {
            assert(m@.subrange(p as int, p + id@.len())[k as int] != id@[k as int]);
            return false;
        }
    }
    assert(m@.subrange(p as int, p + id@.len()) =~= id@);
    true
}

/// Whether a commit message mentions `id` on token boundaries: an occurrence counts only when the
/// bytes next to it are not ASCII letters or digits (so `T-53` is not found in `T-531`).
pub fn message_mentions(message: &str, id: &str) -> (r: bool)
    ensures
        r == mentions(message.spec_bytes(), id.spec_bytes()),
{
    let m = message.as_bytes();
    let b = id.as_bytes();
    let ml = m.len();
    let il = b.len();
    if il > ml {
        assert forall|p: int| !mentions_at(m@, b@, p) by {}
        return false;
    }
    let last = ml - il;
    for p in 0..last
        invariant
            ml == m@.len(),
            il == b@.len(),
            last == ml - il,
            m@ == message.spec_bytes(),
            b@ == id.spec_bytes(),
            forall|q: int| 0 <= q < p ==> !mentions_at(m@, b@, q),
    {
        if token_at(m, b, p) {
            assert(mentions_at(m@, b@, p as int));
            return true;
        }
    }
    if token_at(m, b, last) {
        assert(mentions_at(m@, b@, last as int));
        return true;
    }
    assert forall|q: int| !mentions_at(m@, b@, q) by {
        if 0 <= q && q + il <= ml {
            assert(q <= last);
        }
    }
    false
}

fn token_at(m: &[u8], b: &[u8], p: usize) -> (r: bool)
    requires
        p + b@.len() <= m@.len(),
    ensures
        r == mentions_at(m@, b@, p as int),
{
    if !matches_at(m, b, p) {
        return false;
    }
    let ml = m.len();
    let before_ok = p == 0 || !byte_is_alnum(m[p - 1]);
    let after = p + b.len();
    let after_ok = after >= ml || !byte_is_alnum(m[after]);
    before_ok && after_ok
}

/// The first line of `m` starts, after its leading whitespace, at position `a`.
pub open spec fn subject_start(m: Seq<char>, a: int) -> bool {
    &&& 0 <= a <= m.len()
    &&& forall|i: int| 0 <= i < a ==> is_space(#[trigger] m[i]) && m[i] != '\n'
    &&& (a == m.len() || !is_space(m[a]) || m[a] == '\n')
}

/// The commit is one of the board's own bookkeeping commits: the first line of its message,
/// without leading whitespace, starts with `pinto:`.
pub open spec fn bookkeeping(m: Seq<char>) -> bool {
    exists|a: int| #[trigger] subject_start(m, a) && a + 6 <= m.len() && m.subrange(a, a + 6) == "pinto:"@
}

/// Whether the commit message is one of the board's own bookkeeping commits.
pub fn is_bookkeeping(message: &str) -> (r: bool)
    ensures
        r == bookkeeping(message@),
{
    let n = message.unicode_len();
    let mut a: usize = 0;
    while a < n && message.get_char(a) != '\n' && char_is_space(message.get_char(a))
        invariant
            n == message@.len(),
            a <= n,
            forall|i: int| 0 <= i < a ==> is_space(#[trigger] message@[i]) && message@[i] != '\n',
        decreases n - a,
    {
        a = a + 1;
    }
    assert(subject_start(message@, a as int));
    proof {
        reveal_strlit("pinto:");
        assert forall|b: int| #[trigger] subject_start(message@, b) implies b == a by {
            if b < a {
                assert(is_space(message@[b]) && message@[b] != '\n');
            } else if b > a {
                assert(is_space(message@[a as int]) && message@[a as int] != '\n');
            }
        }
    }
    if n - a < 6 {
        return false;
    }
    let r = message.get_char(a) == 'p' && message.get_char(a + 1) == 'i' && message.get_char(a + 2) == 'n'
        && message.get_char(a + 3) == 't' && message.get_char(a + 4) == 'o' && message.get_char(a + 5) == ':';
    proof {
        let w = message@.subrange(a as int, a + 6);
        if r {
            assert(w =~= "pinto:"@);
        } else {
            if w == "pinto:"@ {
                assert(w[0] == 'p' && w[1] == 'i' && w[2] == 'n' && w[3] == 't' && w[4] == 'o' && w[5] == ':');
            }
        }
    }
    r
}

/// The commits as values: SHA and message.
pub open spec fn commits_view(c: Seq<(String, String)>) -> Seq<(Seq<char>, Seq<char>)> {
    c.map_values(|e: (String, String)| (e.0@, e.1@))
}

/// Item `i` already holds the commit `sha`, or the scan linked it already.
pub open spec fn holds(items: Seq<BacklogItem>, links: Seq<(usize, Seq<char>)>, i: int, sha: Seq<char>) -> bool {
    strs_view(items[i].commits@).contains(sha) || links.contains((i as usize, sha))
}

/// The links one commit adds: to each item, in order, that its message mentions and that does not
/// hold it yet.
pub open spec fn commit_links(
    items: Seq<BacklogItem>,
    before: Seq<(usize, Seq<char>)>,
    sha: Seq<char>,
    message: Seq<char>,
) -> Seq<(usize, Seq<char>)> {
    indices_where(
        items.len() as int,
        |i: int| mentions(encode_utf8(message), encode_utf8(id_text(items[i].id@))) && !holds(items, before, i, sha),
    ).map_values(|i: usize| (i, sha))
}

/// The links a scan of the commits, oldest first, adds: bookkeeping commits are skipped.
pub open spec fn scan_links_of(items: Seq<BacklogItem>, commits: Seq<(Seq<char>, Seq<char>)>) -> Seq<(usize, Seq<char>)>
    decreases commits.len(),
{
    if commits.len() == 0 {
        seq![]
    } else {
        let before = scan_links_of(items, commits.drop_last());
        let (sha, message) = commits.last();
        if bookkeeping(message) {
            before
        } else {
            before + commit_links(items, before, sha, message)
        }
    }
}

/// A scan leaves every item that a scanned commit mentions holding that commit, by its own list
/// or by a link the scan adds.
proof fn lemma_scan_covers(items: Seq<BacklogItem>, commits: Seq<(Seq<char>, Seq<char>)>, c: int, i: int)
    requires
        items.len() <= usize::MAX,
        0 <= c < commits.len(),
        0 <= i < items.len(),
        !bookkeeping(commits[c].1),
        mentions(encode_utf8(commits[c].1), encode_utf8(id_text(items[i].id@))),
    ensures
        holds(items, scan_links_of(items, commits), i, commits[c].0),
    decreases commits.len(),
{
    let prev = commits.drop_last();
    let before = scan_links_of(items, prev);
    let all = scan_links_of(items, commits);
    let (sha, message) = commits.last();
    if c < commits.len() - 1 {
        assert(prev[c] == commits[c]);
        lemma_scan_covers(items, prev, c, i);
    }
    if bookkeeping(message) {
        assert(all == before);
    } else {
        let added = commit_links(items, before, sha, message);
        assert(all == before + added);
        let target = commits[c].0;
        if holds(items, before, i, target) {
            if before.contains((i as usize, target)) {
                let j = choose|j: int| 0 <= j < before.len() && before[j] == (i as usize, target);
                assert(all[j] == before[j]);
            }
        } else {
            assert(c == commits.len() - 1);
            let pred = |q: int| mentions(encode_utf8(message), encode_utf8(id_text(items[q].id@))) && !holds(items, before, q, sha);
            lemma_indices_where(items.len() as int, pred);
            let idx = indices_where(items.len() as int, pred);
            assert(idx.contains(i as usize));
            let j = choose|j: int| 0 <= j < idx.len() && idx[j] == i as usize;
            assert(added[j] == (i as usize, sha));
            assert(all[before.len() + j] == (i as usize, sha));
        }
    }
}

/// A scan finds nothing in commits that every item they mention already holds.
proof fn lemma_scan_finds_nothing(items: Seq<BacklogItem>, commits: Seq<(Seq<char>, Seq<char>)>)
    requires
        items.len() <= usize::MAX,
        forall|c: int, i: int|
            0 <= c < commits.len() && 0 <= i < items.len() && !bookkeeping(commits[c].1) && mentions(
                encode_utf8(commits[c].1),
                encode_utf8(id_text(items[i].id@)),
            ) ==> strs_view(#[trigger] items[i].commits@).contains(#[trigger] commits[c].0),
    ensures
        scan_links_of(items, commits).len() == 0,
    decreases commits.len(),
{
    if commits.len() > 0 {
        let prev = commits.drop_last();
        assert forall|c: int, i: int|
            0 <= c < prev.len() && 0 <= i < items.len() && !bookkeeping(prev[c].1) && mentions(
                encode_utf8(prev[c].1),
                encode_utf8(id_text(items[i].id@)),
            ) implies strs_view(#[trigger] items[i].commits@).contains(#[trigger] prev[c].0) by {
            assert(prev[c] == commits[c]);
        }
        lemma_scan_finds_nothing(items, prev);
        let before = scan_links_of(items, prev);
        let (sha, message) = commits.last();
        if !bookkeeping(message) {
            let pred = |q: int| mentions(encode_utf8(message), encode_utf8(id_text(items[q].id@))) && !holds(items, before, q, sha);
            lemma_indices_where(items.len() as int, pred);
            let idx = indices_where(items.len() as int, pred);
            if idx.len() > 0 {
                let q = idx[0] as int;
                assert(pred(q));
                assert(strs_view(items[q].commits@).contains(commits[commits.len() - 1].0));
            }
        }
    }
}

/// Scanning the same history again, once the links of a scan are recorded, links nothing: for
/// items whose commit lists are those of `items` with the scan's links added (`after`), a scan of
/// the same commits finds no new link.
pub proof fn lemma_scan_is_idempotent(
    items: Seq<BacklogItem>,
    after: Seq<BacklogItem>,
    commits: Seq<(Seq<char>, Seq<char>)>,
)
    requires
        items.len() <= usize::MAX,
        after.len() == items.len(),
        forall|i: int| 0 <= i < items.len() ==> (#[trigger] after[i]).id@ == items[i].id@,
        forall|i: int, sha: Seq<char>|
            0 <= i < items.len() && #[trigger] holds(items, scan_links_of(items, commits), i, sha) ==> strs_view(
                after[i].commits@,
            ).contains(sha),
    ensures
        scan_links_of(after, commits).len() == 0,
{
    assert forall|c: int, i: int|
        0 <= c < commits.len() && 0 <= i < after.len() && !bookkeeping(commits[c].1) && mentions(
            encode_utf8(commits[c].1),
            encode_utf8(id_text(after[i].id@)),
        ) implies strs_view(#[trigger] after[i].commits@).contains(#[trigger] commits[c].0) by {
        lemma_scan_covers(items, commits, c, i);
    }
    lemma_scan_finds_nothing(after, commits);
}

/// The links as values.
pub open spec fn links_view(l: Seq<(usize, String)>) -> Seq<(usize, Seq<char>)> {
    l.map_values(|e: (usize, String)| (e.0, e.1@))
}

/// Whether item `i` holds the commit, in its list or among the links found so far.
fn holds_commit(items: &Vec<BacklogItem>, links: &Vec<(usize, String)>, i: usize, sha: &String) -> (r: bool)
    requires
        i < items@.len(),
    ensures
        r == holds(items@, links_view(links@), i as int, sha@),
{
    let it = &items[i];
    let n = it.commits.len();
    let mut k: usize = 0;
    while k < n
        invariant
            n == it.commits@.len(),
            k <= n,
            i < items@.len(),
            *it == items@[i as int],
            forall|j: int| 0 <= j < k ==> strs_view(it.commits@)[j] != sha@,
        decreases n - k,
    {
        if crate::text::text_eq(it.commits[k].as_str(), sha.as_str()) {
            assert(strs_view(it.commits@)[k as int] == sha@);
            assert(strs_view(it.commits@).contains(sha@));
            return true;
        }
        k = k + 1;
    }
    let m = links.len();
    let mut q: usize = 0;
    while q < m
        invariant
            m == links@.len(),
            q <= m,
            forall|j: int| 0 <= j < k ==> strs_view(it.commits@)[j] != sha@,
            k == n,
            n == it.commits@.len(),
            i < items@.len(),
            *it == items@[i as int],
            forall|j: int| 0 <= j < q ==> links_view(links@)[j] != (i, sha@),
        decreases m - q,
    {
        if links[q].0 == i && crate::text::text_eq(links[q].1.as_str(), sha.as_str()) {
            assert(links_view(links@)[q as int] == (i, sha@));
            assert(links_view(links@).contains((i, sha@)));
            return true;
        }
        q = q + 1;
    }
    false
}

/// The links a scan of the commits (SHA and message, oldest first) adds: each commit whose message
/// is not a bookkeeping commit is linked to every item whose ID its message mentions as a whole
/// token, unless the item holds it already; links are in commit order, then item order, as item
/// position and SHA.
pub fn scan_links(items: &Vec<BacklogItem>, commits: &Vec<(String, String)>) -> (r: Vec<(usize, String)>)
    ensures
        links_view(r@) == scan_links_of(items@, commits_view(commits@)),
{
    let mut links: Vec<(usize, String)> = Vec::new();
    let nc = commits.len();
    let mut c: usize = 0;
    while c < nc
        invariant
            nc == commits@.len(),
            c <= nc,
            links_view(links@) == scan_links_of(items@, commits_view(commits@).take(c as int)),
        decreases nc - c,
    {
        let ghost cv = commits_view(commits@);
        proof {
            assert(cv.take(c + 1).drop_last() =~= cv.take(c as int));
            assert(cv.take(c + 1).last() == (commits@[c as int].0@, commits@[c as int].1@));
        }
        let sha = &commits[c].0;
        let message = &commits[c].1;
        if !is_bookkeeping(message.as_str()) {
            let ghost before = links_view(links@);
            let ghost pred = |i: int| mentions(encode_utf8(message@), encode_utf8(id_text(items@[i].id@))) && !holds(items@, before, i, sha@);
            let ghost base = links@;
            let n = items.len();
            let mut i: usize = 0;
            while i < n
                invariant
                    n == items@.len(),
                    i <= n,
                    c < nc,
                    nc == commits@.len(),
                    sha == commits@[c as int].0,
                    before == links_view(base),
                    pred == (|i: int| mentions(encode_utf8(message@), encode_utf8(id_text(items@[i].id@))) && !holds(items@, before, i, sha@)),
                    links_view(links@) == before + indices_where(i as int, pred).map_values(|i: usize| (i, sha@)),
                    forall|j: int| 0 <= j < links@.len() - base.len() ==> (#[trigger] links_view(links@)[base.len() + j]).0 < i,
                    links@.len() >= base.len(),
                decreases n - i,
            {
                let text = items[i].id.to_text();
                let hit = message_mentions(message.as_str(), text.as_str());
                let held = if hit {
                    holds_commit(items, &links, i, sha)
                } else {
                    false
                };
                proof {
                    if hit {
                        // Links added for earlier items do not concern item `i`.
                        let lv = links_view(links@);
                        assert(holds(items@, lv, i as int, sha@) == holds(items@, before, i as int, sha@)) by {
                            if lv.contains((i, sha@)) && !before.contains((i, sha@)) {
                                let j = choose|j: int| 0 <= j < lv.len() && lv[j] == (i, sha@);
                                if j >= before.len() {
                                    assert(lv[base.len() + (j - base.len())].0 < i);
                                } else {
                                    assert(before[j] == lv[j]);
                                }
                            }
                            if before.contains((i, sha@)) {
                                let j = choose|j: int| 0 <= j < before.len() && before[j] == (i, sha@);
                                assert(lv[j] == before[j]);
                            }
                        }
                    }
                }
                if hit && !held {
                    let ghost prev = links@;
                    links.push((i, sha.clone()));
                    proof {
                        assert(links_view(links@) =~= links_view(prev).push((i, sha@)));
                        assert(indices_where(i + 1, pred) == indices_where(i as int, pred).push(i));
                        assert(indices_where(i + 1, pred).map_values(|i: usize| (i, sha@)) =~= indices_where(
                            i as int,
                            pred,
                        ).map_values(|i: usize| (i, sha@)).push((i, sha@)));
                    }
                } else {
                    assert(indices_where(i + 1, pred) == indices_where(i as int, pred));
                }
                i = i + 1;
            }
        }
        c = c + 1;
    }
    assert(commits_view(commits@).take(nc as int) =~= commits_view(commits@));
    links
}

// ---------------------------------------------------------------------------------------------
// Reading the commit history
// ---------------------------------------------------------------------------------------------

/// The pieces of `s` between the occurrences of `sep` (one piece when `sep` does not occur).
pub open spec fn pieces(s: Seq<char>, sep: char) -> Seq<Seq<char>>
    decreases s.len(),
{
    if s.len() == 0 {
        seq![seq![]]
    } else {
        let p = pieces(s.drop_last(), sep);
        if s.last() == sep {
            p.push(seq![])
        } else {
            p.update(p.len() - 1, p.last().push(s.last()))
        }
    }
}

pub(crate) proof fn lemma_pieces_nonempty(s: Seq<char>, sep: char)
    ensures
        pieces(s, sep).len() >= 1,
    decreases s.len(),
{
    if s.len() > 0 {
        lemma_pieces_nonempty(s.drop_last(), sep);
    }
}

/// A line break character.
pub open spec fn is_break(c: char) -> bool {
    c == '\n' || c == '\r'
}

/// `s` without its leading and trailing characters that satisfy `strip` (a space test when
/// `spaces`, a line break test otherwise).
#[verifier::opaque]
pub open spec fn trimmed(s: Seq<char>, spaces: bool) -> Seq<char> {
    let strip = |c: char| if spaces { is_space(c) } else { is_break(c) };
    if forall|i: int| 0 <= i < s.len() ==> strip(#[trigger] s[i]) {
        seq![]
    } else {
        let a = choose|a: int| 0 <= a < s.len() && !strip(s[a]) && forall|i: int| 0 <= i < a ==> strip(#[trigger] s[i]);
        let b = choose|b: int|
            a <= b < s.len() && !strip(s[b]) && forall|i: int| b < i < s.len() ==> strip(#[trigger] s[i]);
        s.subrange(a, b + 1)
    }
}

/// The two sides of the first NUL character of `s`, if it holds one.
#[verifier::opaque]
pub open spec fn split_nul(s: Seq<char>) -> Option<(Seq<char>, Seq<char>)> {
    if exists|p: int| 0 <= p < s.len() && s[p] == '\0' {
        let p = choose|p: int| 0 <= p < s.len() && s[p] == '\0' && forall|q: int| 0 <= q < p ==> s[q] != '\0';
        Some((s.subrange(0, p), s.subrange(p + 1, s.len() as int)))
    } else {
        None
    }
}

/// The commit a record of the history holds: without surrounding line breaks, a SHA and a message
/// separated by NUL; the SHA without surrounding whitespace. Empty and malformed records hold none.
#[verifier::opaque]
pub open spec fn log_entry(piece: Seq<char>) -> Option<(Seq<char>, Seq<char>)> {
    let r = trimmed(piece, false);
    if r.len() == 0 {
        None
    } else {
        match split_nul(r) {
            Some((sha, message)) => Some((trimmed(sha, true), message)),
            None => None,
        }
    }
}

/// The commits held by the records, in order.
pub open spec fn log_entries(ps: Seq<Seq<char>>) -> Seq<(Seq<char>, Seq<char>)>
    decreases ps.len(),
{
    if ps.len() == 0 {
        seq![]
    } else {
        match log_entry(ps.last()) {
            Some(e) => log_entries(ps.drop_last()).push(e),
            None => log_entries(ps.drop_last()),
        }
    }
}

/// Whether trimming removes `c`: a space when `spaces`, a line break otherwise.
fn strips(c: char, spaces: bool) -> (r: bool)
    ensures
        r == if spaces {
            is_space(c)
        } else {
            is_break(c)
        },
{
    if spaces {
        char_is_space(c)
    } else {
        c == '\n' || c == '\r'
    }
}

/// The bounds of `s` without the leading and trailing characters `strip` removes.
#[verifier::spinoff_prover]
#[verifier::rlimit(40)]
pub(crate) fn trim_bounds(s: &str, spaces: bool) -> (r: (usize, usize))
    ensures
        r.0 <= r.1 <= s@.len(),
        s@.subrange(r.0 as int, r.1 as int) == trimmed(s@, spaces),
{
    let ghost strip = |c: char| if spaces { is_space(c) } else { is_break(c) };
    let n = s.unicode_len();
    let mut a: usize = 0;
    while a < n && strips(s.get_char(a), spaces)
        invariant
            n == s@.len(),
            a <= n,
            strip == (|c: char| if spaces { is_space(c) } else { is_break(c) }),
            forall|i: int| 0 <= i < a ==> strip(#[trigger] s@[i]),
        decreases n - a,
    {
        a = a + 1;
    }
    if a == n {
        assert(s@.subrange(n as int, n as int) =~= Seq::<char>::empty());
        proof {
            reveal(trimmed);
        }
        return (n, n);
    }
    let mut b: usize = n;
    while b > a + 1 && strips(s.get_char(b - 1), spaces)
        invariant
            n == s@.len(),
            a < n,
            a + 1 <= b <= n,
            !strip(s@[a as int]),
            strip == (|c: char| if spaces { is_space(c) } else { is_break(c) }),
            forall|i: int| 0 <= i < a ==> strip(#[trigger] s@[i]),
            forall|i: int| b <= i < n ==> strip(#[trigger] s@[i]),
        decreases b,
    {
        b = b - 1;
    }
    proof {
        reveal(trimmed);
        let sv = s@;
        assert(!(forall|i: int| 0 <= i < sv.len() ==> strip(#[trigger] sv[i])));
        let a2 = choose|a2: int| 0 <= a2 < sv.len() && !strip(sv[a2]) && forall|i: int| 0 <= i < a2 ==> strip(#[trigger] sv[i]);
        if a2 < a {
            assert(strip(sv[a2]));
        } else if a2 > a {
            assert(strip(sv[a as int]));
        }
        assert(!strip(sv[b - 1]));
        let b2 = choose|b2: int|
            a2 <= b2 < sv.len() && !strip(sv[b2]) && forall|i: int| b2 < i < sv.len() ==> strip(#[trigger] sv[i]);
        if b2 < b - 1 {
            assert(strip(sv[b - 1]));
        } else if b2 > b - 1 {
            assert(strip(sv[b2]));
        }
    }
    (a, b)
}

/// The commit a record of the history holds, if any.
fn read_entry(piece: &str) -> (r: Option<(String, String)>)
    ensures
        match (r, log_entry(piece@)) {
            (Some(e), Some(v)) => e.0@ == v.0 && e.1@ == v.1,
            (None, None) => true,
            _ => false,
        },
{
    proof {
        reveal(log_entry);
    }
    let (a, b) = trim_bounds(piece, false);
    if a == b {
        return None;
    }
    let rec = piece.substring_char(a, b);
    let n = rec.unicode_len();
    let mut p: usize = 0;
    while p < n && rec.get_char(p) != '\0'
        invariant
            n == rec@.len(),
            p <= n,
            forall|q: int| 0 <= q < p ==> rec@[q] != '\0',
        decreases n - p,
    {
        p = p + 1;
    }
    if p == n {
        proof {
            reveal(split_nul);
        }
        return None;
    }
    proof {
        reveal(split_nul);
        let c = choose|c: int| 0 <= c < rec@.len() && rec@[c] == '\0' && forall|q: int| 0 <= q < c ==> rec@[q] != '\0';
        if c < p {
        } else if c > p {
            assert(rec@[p as int] == '\0');
        }
    }
    let sha_part = rec.substring_char(0, p);
    let message = rec.substring_char(p + 1, n);
    let (x, y) = trim_bounds(sha_part, true);
    let sha = sha_part.substring_char(x, y);
    Some((sha.to_owned(), message.to_owned()))
}

/// The commits of a `git log` listing whose records end with the record separator U+001E and hold
/// a SHA, a NUL and the message: records are taken without surrounding line breaks, empty or
/// NUL-less records are skipped, and SHAs are taken without surrounding whitespace.
pub fn parse_git_log(text: &str) -> (r: Vec<(String, String)>)
    ensures
        commits_view(r@) == log_entries(pieces(text@, '\u{1e}')),
{
    let n = text.unicode_len();
    let mut out: Vec<(String, String)> = Vec::new();
    let mut start: usize = 0;
    let mut i: usize = 0;
    while i < n
        invariant
            n == text@.len(),
            start <= i <= n,
            pieces(text@.take(i as int), '\u{1e}').len() >= 1,
            pieces(text@.take(i as int), '\u{1e}').last() == text@.subrange(start as int, i as int),
            commits_view(out@) == log_entries(pieces(text@.take(i as int), '\u{1e}').drop_last()),
        decreases n - i,
    {
        let ghost before = pieces(text@.take(i as int), '\u{1e}');
        proof {
            assert(text@.take(i + 1).drop_last() =~= text@.take(i as int));
            assert(text@.take(i + 1).last() == text@[i as int]);
        }
        if text.get_char(i) == '\u{1e}' {
            let piece = text.substring_char(start, i);
            let e = read_entry(piece);
            proof {
                let after = pieces(text@.take(i + 1), '\u{1e}');
                assert(after == before.push(seq![]));
                assert(after.drop_last() =~= before);
                assert(before.drop_last() =~= before.take(before.len() - 1));
            }
            match e {
                Some(entry) => {
                    let ghost prev = out@;
                    out.push(entry);
                    proof {
                        assert(commits_view(out@) =~= commits_view(prev).push((out@.last().0@, out@.last().1@)));
                    }
                },
                None => {},
            }
            start = i + 1;
            proof {
                let after = pieces(text@.take(i + 1), '\u{1e}');
                assert(text@.subrange(start as int, i + 1) =~= Seq::<char>::empty());
            }
        } else {
            proof {
                let after = pieces(text@.take(i + 1), '\u{1e}');
                assert(after == before.update(before.len() - 1, before.last().push(text@[i as int])));
                assert(after.last() =~= text@.subrange(start as int, i + 1));
                assert(after.drop_last() =~= before.drop_last());
            }
        }
        i = i + 1;
    }
    assert(text@.take(n as int) =~= text@);
    let last = text.substring_char(start, n);
    let e = read_entry(last);
    let ghost ps = pieces(text@, '\u{1e}');
    proof {
        lemma_pieces_nonempty(text@, '\u{1e}');
        assert(ps.drop_last().push(ps.last()) =~= ps);
    }
    match e {
        Some(entry) => {
            let ghost prev = out@;
            out.push(entry);
            assert(commits_view(out@) =~= commits_view(prev).push((out@.last().0@, out@.last().1@)));
        },
        None => {},
    }
    out
}

// ---------------------------------------------------------------------------------------------
// Recording the links
// ---------------------------------------------------------------------------------------------

/// The SHAs linked to item `i`, in link order.
pub open spec fn shas_for(links: Seq<(usize, Seq<char>)>, i: int) -> Seq<Seq<char>>
    decreases links.len(),
{
    if links.len() == 0 {
        seq![]
    } else if links.last().0 == i {
        shas_for(links.drop_last(), i).push(links.last().1)
    } else {
        shas_for(links.drop_last(), i)
    }
}

/// `after` is `before` holding the commits `added` after its own, updated at `now`; every other
/// field as it was.
pub open spec fn with_commits(before: BacklogItem, after: BacklogItem, added: Seq<Seq<char>>, now: i64) -> bool {
    &&& strs_view(after.commits@) == strs_view(before.commits@) + added
    &&& after.updated == now
    &&& after.id@ == before.id@
    &&& after.title@ == before.title@
    &&& after.status@ == before.status@
    &&& after.rank@ == before.rank@
    &&& after.points == before.points
    &&& crate::backlog::opt_id(after.parent) == crate::backlog::opt_id(before.parent)
    &&& crate::backlog::ids_view(after.depends_on@) == crate::backlog::ids_view(before.depends_on@)
    &&& crate::backlog::opt_str(after.sprint) == crate::backlog::opt_str(before.sprint)
    &&& strs_view(after.labels@) == strs_view(before.labels@)
    &&& after.created == before.created
    &&& after.done_at == before.done_at
    &&& after.body@ == before.body@
    &&& crate::backlog::opt_str(after.assignee) == crate::backlog::opt_str(before.assignee)
    &&& after.start_at == before.start_at
    &&& crate::backlog::opt_source(after.source) == crate::backlog::opt_source(before.source)
}

/// The positions of the items that some link names, in item order.
pub open spec fn linked_positions(n: int, links: Seq<(usize, Seq<char>)>) -> Seq<usize> {
    indices_where(n, |i: int| shas_for(links, i).len() > 0)
}

/// The SHAs linked to item `i`, in link order.
fn shas_linked(links: &Vec<(usize, String)>, i: usize) -> (r: Vec<String>)
    ensures
        strs_view(r@) == shas_for(links_view(links@), i as int),
{
    let mut out: Vec<String> = Vec::new();
    let n = links.len();
    let mut k: usize = 0;
    while k < n
        invariant
            n == links@.len(),
            k <= n,
            strs_view(out@) == shas_for(links_view(links@).take(k as int), i as int),
        decreases n - k,
    {
        proof {
            assert(links_view(links@).take(k + 1).drop_last() =~= links_view(links@).take(k as int));
        }
        if links[k].0 == i {
            let ghost before = out@;
            out.push(links[k].1.clone());
            assert(strs_view(out@) =~= strs_view(before).push(links@[k as int].1@));
        }
        k = k + 1;
    }
    assert(links_view(links@).take(n as int) =~= links_view(links@));
    out
}

/// Record the links that a scan found, stamping each linked item at `now`: the links as item ID
/// and SHA in link order, and each linked item (in item order) with its new commits after its own.
pub fn apply_links(items: &Vec<BacklogItem>, links: &Vec<(usize, String)>, now: i64) -> (r: (
    Vec<(ItemId, String)>,
    Vec<BacklogItem>,
))
    requires
        forall|k: int| 0 <= k < links@.len() ==> (#[trigger] links@[k]).0 < items@.len(),
    ensures
        r.0@.len() == links@.len(),
        forall|k: int|
            0 <= k < links@.len() ==> (#[trigger] r.0@[k]).0@ == items@[links@[k].0 as int].id@ && r.0@[k].1@
                == links@[k].1@,
        r.1@.len() == linked_positions(items@.len() as int, links_view(links@)).len(),
        forall|k: int|
            0 <= k < r.1@.len() ==> {
                let i = linked_positions(items@.len() as int, links_view(links@))[k] as int;
                with_commits(items@[i], #[trigger] r.1@[k], shas_for(links_view(links@), i), now)
            },
{
    let mut pairs: Vec<(ItemId, String)> = Vec::new();
    let m = links.len();
    let mut k: usize = 0;
    while k < m
        invariant
            m == links@.len(),
            k <= m,
            forall|j: int| 0 <= j < links@.len() ==> (#[trigger] links@[j]).0 < items@.len(),
            pairs@.len() == k,
            forall|j: int|
                0 <= j < k ==> (#[trigger] pairs@[j]).0@ == items@[links@[j].0 as int].id@ && pairs@[j].1@
                    == links@[j].1@,
        decreases m - k,
    {
        let (index, sha) = &links[k];
        pairs.push((items[*index].id.copy(), sha.clone()));
        k = k + 1;
    }
    let ghost lv = links_view(links@);
    let ghost pred = |i: int| shas_for(lv, i).len() > 0;
    let mut updated: Vec<BacklogItem> = Vec::new();
    let n = items.len();
    let mut i: usize = 0;
    while i < n
        invariant
            n == items@.len(),
            i <= n,
            lv == links_view(links@),
            pred == (|i: int| shas_for(lv, i).len() > 0),
            updated@.len() == indices_where(i as int, pred).len(),
            forall|k: int|
                0 <= k < updated@.len() ==> {
                    let p = indices_where(i as int, pred)[k] as int;
                    with_commits(items@[p], #[trigger] updated@[k], shas_for(lv, p), now)
                },
        decreases n - i,
    {
        let added = shas_linked(links, i);
        if added.len() > 0 {
            let mut item = items[i].copy();
            let ghost base = item.commits@;
            let mut q: usize = 0;
            while q < added.len()
                invariant
                    q <= added@.len(),
                    strs_view(item.commits@) == strs_view(base) + strs_view(added@).take(q as int),
                    item.id@ == items@[i as int].id@,
                    item.title@ == items@[i as int].title@,
                    item.status@ == items@[i as int].status@,
                    item.rank@ == items@[i as int].rank@,
                    item.points == items@[i as int].points,
                    crate::backlog::opt_id(item.parent) == crate::backlog::opt_id(items@[i as int].parent),
                    crate::backlog::ids_view(item.depends_on@) == crate::backlog::ids_view(items@[i as int].depends_on@),
                    crate::backlog::opt_str(item.sprint) == crate::backlog::opt_str(items@[i as int].sprint),
                    strs_view(item.labels@) == strs_view(items@[i as int].labels@),
                    item.created == items@[i as int].created,
                    item.done_at == items@[i as int].done_at,
                    item.body@ == items@[i as int].body@,
                    crate::backlog::opt_str(item.assignee) == crate::backlog::opt_str(items@[i as int].assignee),
                    item.start_at == items@[i as int].start_at,
                    crate::backlog::opt_source(item.source) == crate::backlog::opt_source(items@[i as int].source),
                    strs_view(base) == strs_view(items@[i as int].commits@),
                decreases added@.len() - q,
            {
                let ghost before = item.commits@;
                item.commits.push(added[q].clone());
                assert(strs_view(item.commits@) =~= strs_view(before).push(added@[q as int]@));
                assert(strs_view(added@).take(q + 1) =~= strs_view(added@).take(q as int).push(added@[q as int]@));
                q = q + 1;
            }
            assert(strs_view(added@).take(added@.len() as int) =~= strs_view(added@));
            item.updated = now;
            updated.push(item);
        }
        i = i + 1;
    }
    (pairs, updated)
}

} // verus!

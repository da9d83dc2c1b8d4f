use vstd::prelude::*;

use crate::entry::{EntryView, RegretEntry, log_view, strings_view};

verus! {

/// How many entries the recent view shows at most.
pub const RECENT_LIMIT: usize = 5;

/// The last `min(5, n)` entries of a log of `n`, most recent first.
pub open spec fn recent_of(log: Seq<EntryView>) -> Seq<EntryView> {
    let n = if log.len() < 5 {
        log.len()
    } else {
        5
    };
    Seq::new(n, |i: int| log[log.len() - 1 - i])
}

/// The recent view: nothing to show for an empty log, else its recent entries.
pub open spec fn review_of(log: Seq<EntryView>) -> Option<Seq<EntryView>> {
    if log.len() == 0 {
        None
    } else {
        Some(recent_of(log))
    }
}

/// The content of a recent view as [`review`] returns it.
pub open spec fn option_log_view(r: Option<Vec<RegretEntry>>) -> Option<Seq<EntryView>> {
    match r {
        Some(v) => Some(log_view(v@)),
        None => None,
    }
}

/// The recent view of a log: `None` when there is nothing to show, else
/// copies of its last five entries (fewer if it holds fewer), most recent
/// first. The log is only read.
pub fn review(log: &Vec<RegretEntry>) -> (r: Option<Vec<RegretEntry>>)
    ensures
        option_log_view(r) == review_of(log_view(log@)),
{
    if log.len() == 0 {
        return None;
    }
    let n: usize = if log.len() < RECENT_LIMIT {
        log.len()
    } else {
        RECENT_LIMIT
    };
    let ghost whole = log_view(log@);
    let mut out: Vec<RegretEntry> = Vec::new();
    let mut i: usize = 0;
    while i < n
        invariant
            i <= n,
            n <= log@.len(),
            n == recent_of(whole).len(),
            whole == log_view(log@),
            log_view(out@) =~= recent_of(whole).subrange(0, i as int),
        decreases n - i,
    {
        let ghost prev = out@;
        let e = log[log.len() - 1 - i].copy();
        assert(e@ == recent_of(whole)[i as int]);
        out.push(e);
        assert(log_view(out@) =~= log_view(prev).push(e@));
        i = i + 1;
        assert(log_view(out@) =~= recent_of(whole).subrange(0, i as int));
    }
    assert(recent_of(whole).subrange(0, n as int) =~= recent_of(whole));
    Some(out)
}

/// Every tag occurrence in a log, entry by entry, each entry's tags in order.
pub open spec fn all_tags(log: Seq<EntryView>) -> Seq<Seq<char>>
    decreases log.len(),
{
    if log.len() == 0 {
        seq![]
    } else {
        all_tags(log.drop_last()) + log.last().tags
    }
}

/// How many times `t` occurs in `s`.
pub open spec fn count_in(s: Seq<Seq<char>>, t: Seq<char>) -> nat
    decreases s.len(),
{
    if s.len() == 0 {
        0
    } else {
        count_in(s.drop_last(), t) + if s.last() == t {
            1nat
        } else {
            0nat
        }
    }
}

/// The distinct elements of `s`, in the order of their first occurrence.
pub open spec fn first_seen(s: Seq<Seq<char>>) -> Seq<Seq<char>>
    decreases s.len(),
{
    if s.len() == 0 {
        seq![]
    } else {
        let d = first_seen(s.drop_last());
        if d.contains(s.last()) {
            d
        } else {
            d.push(s.last())
        }
    }
}

/// Each distinct element of `s` with its number of occurrences, in the order
/// of first occurrence.
pub open spec fn table_of(s: Seq<Seq<char>>) -> Seq<(Seq<char>, nat)> {
    first_seen(s).map_values(|t: Seq<char>| (t, count_in(s, t)))
}

/// The tag frequency table of a log.
pub open spec fn tag_table(log: Seq<EntryView>) -> Seq<(Seq<char>, nat)> {
    table_of(all_tags(log))
}

/// The content of a tag table: each tag with its count.
pub open spec fn table_view(t: Seq<(String, usize)>) -> Seq<(Seq<char>, nat)> {
    t.map_values(|p: (String, usize)| (p.0@, p.1 as nat))
}

proof fn lemma_first_seen_distinct(s: Seq<Seq<char>>)
    ensures
        first_seen(s).no_duplicates(),
    decreases s.len(),
{
    if s.len() > 0 {
        lemma_first_seen_distinct(s.drop_last());
    }
}

proof fn lemma_count_absent(s: Seq<Seq<char>>, t: Seq<char>)
    requires
        !first_seen(s).contains(t),
    ensures
        count_in(s, t) == 0,
    decreases s.len(),
{
    if s.len() > 0 {
        let d = first_seen(s.drop_last());
        if !d.contains(s.last()) {
            assert(d.push(s.last()).last() == s.last());
            assert forall|u: Seq<char>| d.contains(u) implies d.push(s.last()).contains(u) by {
                let k = choose|k: int| 0 <= k < d.len() && d[k] == u;
                assert(d.push(s.last())[k] == u);
            }
        }
        lemma_count_absent(s.drop_last(), t);
    }
}

proof fn lemma_all_tags_append(a: Seq<EntryView>, b: Seq<EntryView>)
    ensures
        all_tags(a + b) == all_tags(a) + all_tags(b),
    decreases b.len(),
{
    if b.len() == 0 {
        assert(a + b =~= a);
        assert(all_tags(a) + all_tags(b) =~= all_tags(a));
    } else {
        assert((a + b).drop_last() =~= a + b.drop_last());
        lemma_all_tags_append(a, b.drop_last());
        assert(all_tags(a + b) =~= all_tags(a) + all_tags(b));
    }
}

/// Counts one more occurrence of `t` in a table of the occurrences in `s`.
fn add_tag(table: &mut Vec<(String, usize)>, t: &String, Ghost(s): Ghost<Seq<Seq<char>>>)
    requires
        table_view(old(table)@) == table_of(s),
        s.len() < usize::MAX,
    ensures
        table_view(final(table)@) == table_of(s.push(t@)),
{
    proof {
        lemma_first_seen_distinct(s);
        assert(s.push(t@).drop_last() =~= s);
        assert(s.push(t@).last() == t@);
    }
    let ghost d = first_seen(s);
    let ghost s2 = s.push(t@);
    let mut k: usize = 0;
    while k < table.len()
        invariant
            k <= table@.len(),
            table_view(table@) == table_of(s),
            forall|m: int| 0 <= m < k ==> table@[m].0@ != t@,
            d == first_seen(s),
            d.no_duplicates(),
            s2 == s.push(t@),
            s2.drop_last() == s,
            s2.last() == t@,
            s.len() < usize::MAX,
        decreases table@.len() - k,
    {
        if table[k].0 == *t {
            proof {
                assert(table_view(table@).len() == table@.len());
                assert(table_of(s).len() == d.len());
                assert(table_view(table@)[k as int] == (table@[k as int].0@, table@[k as int].1 as nat));
                assert(table_of(s)[k as int] == (d[k as int], count_in(s, d[k as int])));
                assert(d[k as int] == t@);
                assert(d.contains(t@));
                lemma_count_le_len(s, t@);
            }
            let c = table[k].1;
            let ghost prev = table@;
            table.set(k, (t.clone(), c + 1));
            proof {
                assert(first_seen(s2) == d);
                assert(table@ == prev.update(k as int, (*t, (c + 1) as usize)));
                assert forall|m: int| 0 <= m < d.len() implies count_in(s2, d[m]) == count_in(
                    s,
                    d[m],
                ) + if m == k {
                    1nat
                } else {
                    0nat
                } by {
                    if m != k {
                        assert(d[m] != d[k as int]);
                    }
                }
                assert forall|m: int| 0 <= m < d.len() implies table_view(table@)[m] == table_of(
                    s2,
                )[m] by {
                    assert(table_of(s)[m] == (d[m], count_in(s, d[m])));
                    assert(table_view(prev)[m] == (prev[m].0@, prev[m].1 as nat));
                }
                assert(table_view(table@) =~= table_of(s2));
            }
            return;
        }
        k = k + 1;
    }
    proof {
        assert(!d.contains(t@)) by {
            if d.contains(t@) {
                let m = choose|m: int| 0 <= m < d.len() && d[m] == t@;
                assert(table_view(table@)[m].0 == d[m]);
            }
        }
        lemma_count_absent(s, t@);
    }
    table.push((t.clone(), 1));
    proof {
        assert(first_seen(s2) == d.push(t@));
        assert forall|m: int| 0 <= m < d.len() implies count_in(s2, d[m]) == count_in(s, d[m]) by {
            assert(d[m] != t@) by {
                if d[m] == t@ {
                    assert(d.contains(t@));
                }
            }
        }
        assert forall|m: int| 0 <= m < d.len() + 1 implies table_view(table@)[m] == table_of(
            s2,
        )[m] by {
            if m < d.len() {
                assert(table_of(s)[m] == (d[m], count_in(s, d[m])));
                assert(table_view(table@)[m] == table_view(table@.drop_last())[m]);
            }
        }
        assert(table_view(table@) =~= table_of(s2));
    }
}

proof fn lemma_count_le_len(s: Seq<Seq<char>>, t: Seq<char>)
    ensures
        count_in(s, t) <= s.len(),
    decreases s.len(),
{
    if s.len() > 0 {
        lemma_count_le_len(s.drop_last(), t);
    }
}

/// The tag frequency table of a log: each distinct tag, in the order in which
/// it first occurs, with how many times it occurs over all entries (a tag that
/// one entry holds twice counts twice).
pub fn count_tags(log: &Vec<RegretEntry>) -> (r: Vec<(String, usize)>)
    requires
        all_tags(log_view(log@)).len() <= usize::MAX,
    ensures
        table_view(r@) == tag_table(log_view(log@)),
{
    let ghost whole = log_view(log@);
    let mut table: Vec<(String, usize)> = Vec::new();
    proof {
        assert(whole.subrange(0, 0) =~= Seq::<EntryView>::empty());
        assert(table_view(table@) =~= table_of(all_tags(whole.subrange(0, 0))));
    }
    let mut i: usize = 0;
    while i < log.len()
        invariant
            i <= log@.len(),
            whole == log_view(log@),
            all_tags(whole).len() <= usize::MAX,
            table_view(table@) == table_of(all_tags(whole.subrange(0, i as int))),
        decreases log@.len() - i,
    {
        let tags = &log[i].tags;
        let ghost before = all_tags(whole.subrange(0, i as int));
        let ghost tv = whole[i as int].tags;
        proof {
            let upto = whole.subrange(0, i + 1);
            assert(upto.drop_last() =~= whole.subrange(0, i as int));
            assert(all_tags(upto) == before + tv);
            lemma_all_tags_append(upto, whole.subrange(i + 1, whole.len() as int));
            assert(upto + whole.subrange(i + 1, whole.len() as int) =~= whole);
            assert(tv == strings_view(tags@));
            assert(before + tv.subrange(0, 0) =~= before);
        }
        let mut j: usize = 0;
        while j < tags.len()
            invariant
                j <= tags@.len(),
                tv == strings_view(tags@),
                before.len() + tv.len() <= usize::MAX,
                table_view(table@) == table_of(before + tv.subrange(0, j as int)),
            decreases tags@.len() - j,
        {
            proof {
                assert((before + tv.subrange(0, j as int)).push(tags@[j as int]@) =~= before
                    + tv.subrange(0, j + 1));
            }
            add_tag(&mut table, &tags[j], Ghost(before + tv.subrange(0, j as int)));
            j = j + 1;
        }
        proof {
            assert(tv.subrange(0, tv.len() as int) =~= tv);
        }
        i = i + 1;
    }
    proof {
        assert(whole.subrange(0, whole.len() as int) =~= whole);
    }
    table
}

/// How many entries of a log carry mood `m`.
pub open spec fn mood_count(log: Seq<EntryView>, m: u8) -> nat
    decreases log.len(),
{
    if log.len() == 0 {
        0
    } else {
        mood_count(log.drop_last(), m) + if log.last().mood == Some(m) {
            1nat
        } else {
            0nat
        }
    }
}

/// The mood frequency table of a log: at position `k`, how many entries carry
/// mood level `k + 1`, for the five levels.
pub open spec fn mood_table(log: Seq<EntryView>) -> Seq<nat> {
    Seq::new(5, |k: int| mood_count(log, (k + 1) as u8))
}

/// The content of a list of counts.
pub open spec fn counts_view(c: Seq<usize>) -> Seq<nat> {
    c.map_values(|n: usize| n as nat)
}

/// The mood frequency table of a log, one count for each of the five levels,
/// zero where no entry has that level.
pub fn count_moods(log: &Vec<RegretEntry>) -> (r: Vec<usize>)
    ensures
        r@.len() == 5,
        forall|k: int| 0 <= k < 5 ==> #[trigger] r@[k] == mood_count(log_view(log@), (k + 1) as u8),
        counts_view(r@) == mood_table(log_view(log@)),
{
    let ghost whole = log_view(log@);
    let mut counts: Vec<usize> = vec![0, 0, 0, 0, 0];
    let mut i: usize = 0;
    while i < log.len()
        invariant
            i <= log@.len(),
            whole == log_view(log@),
            counts@.len() == 5,
            forall|k: int|
                0 <= k < 5 ==> #[trigger] counts@[k] == mood_count(
                    whole.subrange(0, i as int),
                    (k + 1) as u8,
                ) && counts@[k] <= i,
        decreases log@.len() - i,
    {
        let ghost prev = counts@;
        proof {
            assert(whole.subrange(0, i + 1).drop_last() =~= whole.subrange(0, i as int));
        }
        match log[i].mood {
            Some(m) => {
                if 1 <= m && m <= 5 {
                    let k = (m - 1) as usize;
                    let c = counts[k];
                    counts.set(k, c + 1);
                }
            },
            None => {},
        }
        i = i + 1;
        assert forall|k: int| 0 <= k < 5 implies #[trigger] counts@[k] == mood_count(
            whole.subrange(0, i as int),
            (k + 1) as u8,
        ) && counts@[k] <= i by {
            assert(prev[k] == mood_count(whole.subrange(0, i - 1), (k + 1) as u8));
        }
    }
    assert(whole.subrange(0, whole.len() as int) =~= whole);
    assert(counts_view(counts@) =~= mood_table(whole));
    counts
}

/// How many tags the stats view lists at most.
pub const TAG_LIMIT: usize = 10;

/// The frequency tables that the stats view shows.
#[derive(Clone, Debug, PartialEq, Eq)]
pub struct Stats {
    pub tags: Vec<(String, usize)>,
    pub moods: Vec<usize>,
}

/// The content of [`Stats`].
pub struct StatsView {
    pub tags: Seq<(Seq<char>, nat)>,
    pub moods: Seq<nat>,
}

impl View for Stats {
    type V = StatsView;

    open spec fn view(&self) -> StatsView {
        StatsView { tags: table_view(self.tags@), moods: counts_view(self.moods@) }
    }
}

/// The first `min(10, n)` rows of a tag table of `n` rows.
pub open spec fn top_tags(table: Seq<(Seq<char>, nat)>) -> Seq<(Seq<char>, nat)> {
    if table.len() <= 10 {
        table
    } else {
        table.subrange(0, 10)
    }
}

/// The stats view: nothing to analyze for an empty log, else up to ten rows of
/// its tag table and its whole mood table.
pub open spec fn stats_of(log: Seq<EntryView>) -> Option<StatsView> {
    if log.len() == 0 {
        None
    } else {
        Some(StatsView { tags: top_tags(tag_table(log)), moods: mood_table(log) })
    }
}

/// The content of a stats view as [`stats`] returns it.
pub open spec fn option_stats_view(r: Option<Stats>) -> Option<StatsView> {
    match r {
        Some(s) => Some(s@),
        None => None,
    }
}

/// The stats view of a log: `None` when there is nothing to analyze, else the
/// first ten rows of its tag table (all of them if fewer) and the counts of
/// the five mood levels. The log is only read.
pub fn stats(log: &Vec<RegretEntry>) -> (r: Option<Stats>)
    requires
        all_tags(log_view(log@)).len() <= usize::MAX,
    ensures
        option_stats_view(r) == stats_of(log_view(log@)),
{
    if log.len() == 0 {
        return None;
    }
    let mut tags = count_tags(log);
    tags.truncate(TAG_LIMIT);
    let moods = count_moods(log);
    let r = Stats { tags, moods };
    assert(r@.tags =~= top_tags(tag_table(log_view(log@))));
    Some(r)
}

/// The number of tag occurrences in a log, or `None` if it exceeds
/// `usize::MAX`: the bound under which [`count_tags`] and [`stats`] work.
pub fn total_tags(log: &Vec<RegretEntry>) -> (r: Option<usize>)
    ensures
        match r {
            Some(n) => n == all_tags(log_view(log@)).len(),
            None => all_tags(log_view(log@)).len() > usize::MAX,
        },
{
    let ghost whole = log_view(log@);
    let mut total: usize = 0;
    let mut i: usize = 0;
    assert(whole.subrange(0, 0) =~= Seq::<EntryView>::empty());
    while i < log.len()
        invariant
            i <= log@.len(),
            whole == log_view(log@),
            total == all_tags(whole.subrange(0, i as int)).len(),
        decreases log@.len() - i,
    {
        proof {
            let upto = whole.subrange(0, i + 1);
            assert(upto.drop_last() =~= whole.subrange(0, i as int));
            lemma_all_tags_append(upto, whole.subrange(i + 1, whole.len() as int));
            assert(upto + whole.subrange(i + 1, whole.len() as int) =~= whole);
        }
        match total.checked_add(log[i].tags.len()) {
            Some(t) => {
                total = t;
            },
            None => {
                return None;
            },
        }
        i = i + 1;
    }
    assert(whole.subrange(0, whole.len() as int) =~= whole);
    Some(total)
}

proof fn lemma_count_concat(a: Seq<Seq<char>>, b: Seq<Seq<char>>, t: Seq<char>)
    ensures
        count_in(a + b, t) == count_in(a, t) + count_in(b, t),
    decreases b.len(),
{
    if b.len() == 0 {
        assert(a + b =~= a);
    } else {
        assert((a + b).drop_last() =~= a + b.drop_last());
        lemma_count_concat(a, b.drop_last(), t);
    }
}

/// After one entry is appended to a log, the recent view starts with that
/// entry, followed by what the view of the old log showed, cut to five in all.
pub proof fn review_after_append(log: Seq<EntryView>, e: EntryView)
    ensures
        review_of(log.push(e)) == Some(
            seq![e] + recent_of(log).subrange(
                0,
                if log.len() < 4 {
                    log.len() as int
                } else {
                    4
                },
            ),
        ),
{
    let n = if log.len() < 4 {
        log.len() as int
    } else {
        4
    };
    assert(recent_of(log.push(e)) =~= seq![e] + recent_of(log).subrange(0, n));
}

/// After one entry is appended to a log, each tag is counted as often as
/// before plus as often as the new entry holds it.
pub proof fn tag_count_after_append(log: Seq<EntryView>, e: EntryView, t: Seq<char>)
    ensures
        count_in(all_tags(log.push(e)), t) == count_in(all_tags(log), t) + count_in(e.tags, t),
{
    assert(log.push(e).drop_last() =~= log);
    lemma_count_concat(all_tags(log), e.tags, t);
}

/// After one entry is appended to a log, each mood level is counted as often
/// as before, once more if it is the new entry's mood.
pub proof fn mood_count_after_append(log: Seq<EntryView>, e: EntryView, m: u8)
    ensures
        mood_count(log.push(e), m) == mood_count(log, m) + if e.mood == Some(m) {
            1nat
        } else {
            0nat
        },
{
    assert(log.push(e).drop_last() =~= log);
}

/// Every tag of a log has its row in the tag table, with its number of
/// occurrences, and no tag has two rows.
pub proof fn tag_table_is_complete(log: Seq<EntryView>, t: Seq<char>)
    ensures
        tag_table(log).map_values(|row: (Seq<char>, nat)| row.0).no_duplicates(),
        all_tags(log).contains(t) ==> exists|k: int|
            0 <= k < tag_table(log).len() && tag_table(log)[k] == (t, count_in(all_tags(log), t)),
{
    let s = all_tags(log);
    lemma_first_seen_distinct(s);
    assert(tag_table(log).map_values(|row: (Seq<char>, nat)| row.0) =~= first_seen(s));
    if s.contains(t) {
        lemma_first_seen_covers(s, t);
        let k = choose|k: int| 0 <= k < first_seen(s).len() && first_seen(s)[k] == t;
        assert(tag_table(log)[k] == (t, count_in(s, t)));
    }
}

proof fn lemma_first_seen_covers(s: Seq<Seq<char>>, t: Seq<char>)
    requires
        s.contains(t),
    ensures
        first_seen(s).contains(t),
    decreases s.len(),
{
    let d = first_seen(s.drop_last());
    if s.last() == t {
        if !d.contains(t) {
            assert(d.push(t)[d.len() as int] == t);
        }
    } else {
        let k = choose|k: int| 0 <= k < s.len() && s[k] == t;
        assert(s.drop_last()[k] == t);
        lemma_first_seen_covers(s.drop_last(), t);
        if !d.contains(s.last()) {
            let j = choose|j: int| 0 <= j < d.len() && d[j] == t;
            assert(d.push(s.last())[j] == t);
        }
    }
}

} // verus!

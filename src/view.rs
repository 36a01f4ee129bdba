use vstd::prelude::*;
use crate::entry::Entry;

verus! {

/// Seconds in a day.
pub const DAY_SECONDS: i64 = 86400;

/// The entries of `s` that start at `since` or later, in their order.
pub open spec fn kept_since(s: Seq<Entry>, since: i64) -> Seq<Entry>
    decreases s.len(),
{
    if s.len() == 0 {
        s
    } else if s.last().time >= since {
        kept_since(s.drop_last(), since).push(s.last())
    } else {
        kept_since(s.drop_last(), since)
    }
}

/// An entry is kept by the filter exactly when it is in `s` and starts at
/// `since` or later.
pub proof fn lemma_kept_since_members(s: Seq<Entry>, since: i64)
    ensures
        forall|x: Entry| #[trigger] kept_since(s, since).contains(x) <==> (s.contains(x) && x.time >= since),
    decreases s.len(),
{
    if s.len() > 0 {
        let rest = s.drop_last();
        lemma_kept_since_members(rest, since);
        let k = kept_since(s, since);
        let kr = kept_since(rest, since);
        assert forall|x: Entry| #[trigger] k.contains(x) <==> (s.contains(x) && x.time >= since) by {
            if k.contains(x) {
                let i = choose|i: int| 0 <= i < k.len() && k[i] == x;
                if i < kr.len() {
                    assert(kr.contains(x));
                    let j = choose|j: int| 0 <= j < rest.len() && rest[j] == x;
                    assert(s[j] == x);
                } else {
                    assert(s[s.len() - 1] == x);
                }
            }
            if s.contains(x) && x.time >= since {
                let j = choose|j: int| 0 <= j < s.len() && s[j] == x;
                if j < s.len() - 1 {
                    assert(rest[j] == x);
                    assert(kr.contains(x));
                    let i = choose|i: int| 0 <= i < kr.len() && kr[i] == x;
                    assert(k[i] == x);
                } else {
                    assert(k[k.len() - 1] == x);
                }
            }
        }
    }
}

/// A later threshold keeps a subset of what an earlier one keeps, and every
/// entry kept starts at the threshold or later.
pub proof fn lemma_filter_monotonic(s: Seq<Entry>, earlier: i64, later: i64)
    requires
        earlier <= later,
    ensures
        forall|x: Entry| #[trigger] kept_since(s, later).contains(x) ==> kept_since(s, earlier).contains(x),
        forall|x: Entry| #[trigger] kept_since(s, later).contains(x) ==> x.time >= later,
{
    lemma_kept_since_members(s, earlier);
    lemma_kept_since_members(s, later);
}

/// The entries of `entries` that start at `since` or later, in their order;
/// all of them when there is no threshold.
pub fn filter_since(entries: &Vec<Entry>, since: Option<i64>) -> (r: Vec<Entry>)
    ensures
        r@ == match since {
            Some(t) => kept_since(entries@, t),
            None => entries@,
        },
{
    let mut r: Vec<Entry> = Vec::new();
    let mut i: usize = 0;
    while i < entries.len()
        invariant
            0 <= i <= entries.len(),
            r@ == match since {
                Some(t) => kept_since(entries@.subrange(0, i as int), t),
                None => entries@.subrange(0, i as int),
            },
        decreases entries.len() - i,
    {
        let e = entries[i];
        let ghost part = entries@.subrange(0, i + 1);
        assert(part.drop_last() =~= entries@.subrange(0, i as int));
        assert(part.last() == e);
        match since {
            Some(t) => {
                if e.time >= t {
                    r.push(e);
                }
            },
            None => {
                r.push(e);
                assert(r@ =~= part);
            },
        }
        i = i + 1;
    }
    assert(entries@.subrange(0, entries.len() as int) =~= entries@);
    r
}


/// The local calendar day (days since the epoch) on which a moment falls, for
/// a local time `offset` seconds ahead of UTC.
pub open spec fn local_day(time: i64, offset: i32) -> int {
    (time + offset) / (DAY_SECONDS as int)
}

/// The total duration, in seconds, of a sequence of entries.
pub open spec fn duration_sum(s: Seq<Entry>) -> int
    decreases s.len(),
{
    if s.len() == 0 {
        0
    } else {
        duration_sum(s.drop_last()) + s.last().duration
    }
}

/// The entries of one local day; `total` is the sum of their durations.
pub struct DayGroup {
    pub day: i64,
    pub entries: Vec<Entry>,
    pub total: u64,
}

/// What a [`DayGroup`] holds: its day and its entries.
pub struct DayGroupView {
    pub day: int,
    pub entries: Seq<Entry>,
}

impl View for DayGroup {
    type V = DayGroupView;

    open spec fn view(&self) -> DayGroupView {
        DayGroupView { day: self.day as int, entries: self.entries@ }
    }
}

/// The views of a sequence of day groups.
pub open spec fn group_views(s: Seq<DayGroup>) -> Seq<DayGroupView> {
    s.map_values(|g: DayGroup| g@)
}

/// A new day group holding the one entry `e` of day `d`.
pub open spec fn single_day(e: Entry, d: int) -> DayGroupView {
    DayGroupView { day: d, entries: seq![e] }
}

/// `g` with `e` filed under day `d`: added at the end of the group of that
/// day, or in a new group placed before the first group of a later day.
pub open spec fn file_under_day(g: Seq<DayGroupView>, e: Entry, d: int) -> Seq<DayGroupView>
    decreases g.len(),
{
    if g.len() == 0 {
        seq![single_day(e, d)]
    } else if d < g[0].day {
        seq![single_day(e, d)] + g
    } else if d == g[0].day {
        g.update(0, DayGroupView { day: d, entries: g[0].entries.push(e) })
    } else {
        seq![g[0]] + file_under_day(g.drop_first(), e, d)
    }
}

/// The entries of `s` grouped by local day, one group per day, the days in
/// ascending order and each day's entries in their order in `s`.
pub open spec fn day_groups(s: Seq<Entry>, offset: i32) -> Seq<DayGroupView>
    decreases s.len(),
{
    if s.len() == 0 {
        Seq::empty()
    } else {
        file_under_day(day_groups(s.drop_last(), offset), s.last(), local_day(s.last().time, offset))
    }
}

/// The days of the groups ascend strictly, so no day has two groups.
pub open spec fn days_ascending(g: Seq<DayGroupView>) -> bool {
    forall|i: int, j: int| 0 <= i < j < g.len() ==> g[i].day < g[j].day
}


/// The entries of `s` that fall on local day `day`, in their order.
pub open spec fn of_day(s: Seq<Entry>, day: int, offset: i32) -> Seq<Entry>
    decreases s.len(),
{
    if s.len() == 0 {
        s
    } else if local_day(s.last().time, offset) == day {
        of_day(s.drop_last(), day, offset).push(s.last())
    } else {
        of_day(s.drop_last(), day, offset)
    }
}

/// Each group holds exactly the entries of `s` on its day, in their order,
/// and the day of every entry of `s` has a group.
pub open spec fn grouped_by_day(g: Seq<DayGroupView>, s: Seq<Entry>, offset: i32) -> bool {
    &&& forall|k: int| 0 <= k < g.len() ==> (#[trigger] g[k]).entries == of_day(s, g[k].day, offset)
    &&& forall|i: int| 0 <= i < s.len() ==> exists|k: int| 0 <= k < g.len() && g[k].day == local_day(
        #[trigger] s[i].time,
        offset,
    )
}

proof fn lemma_of_day_empty(s: Seq<Entry>, day: int, offset: i32)
    requires
        forall|i: int| 0 <= i < s.len() ==> local_day(#[trigger] s[i].time, offset) != day,
    ensures
        of_day(s, day, offset).len() == 0,
    decreases s.len(),
{
    if s.len() > 0 {
        let t = s.drop_last();
        assert forall|i: int| 0 <= i < t.len() implies local_day(#[trigger] t[i].time, offset) != day by {
            assert(t[i] == s[i]);
        }
        lemma_of_day_empty(t, day, offset);
        assert(s[s.len() - 1] == s.last());
    }
}

/// Filing `e` under day `d` changes only the group of that day: it gains
/// `e` at its end, or is new and holds `e` alone when no group had that day.
#[verifier::rlimit(60)]
proof fn lemma_file_members(g: Seq<DayGroupView>, e: Entry, d: int)
    requires
        days_ascending(g),
    ensures
        forall|k: int| 0 <= k < file_under_day(g, e, d).len() ==> {
            let r = #[trigger] file_under_day(g, e, d)[k];
            &&& r.day != d ==> exists|j: int| 0 <= j < g.len() && g[j] == r
            &&& r.day == d ==> ((exists|j: int| 0 <= j < g.len() && g[j].day == d && r.entries
                == g[j].entries.push(e)) || (r.entries == seq![e] && forall|j: int| 0 <= j < g.len()
                ==> g[j].day != d))
        },
        exists|k: int| 0 <= k < file_under_day(g, e, d).len() && file_under_day(g, e, d)[k].day == d,
        forall|j: int| 0 <= j < g.len() ==> exists|k: int| 0 <= k < file_under_day(g, e, d).len()
            && file_under_day(g, e, d)[k].day == #[trigger] g[j].day,
    decreases g.len(),
{
    let r = file_under_day(g, e, d);
    if g.len() == 0 {
        assert(r[0].day == d);
    } else if d < g[0].day {
        assert(r[0].day == d);
        assert forall|k: int| 0 <= k < r.len() implies {
            let x = #[trigger] r[k];
            &&& x.day != d ==> exists|j: int| 0 <= j < g.len() && g[j] == x
            &&& x.day == d ==> ((exists|j: int| 0 <= j < g.len() && g[j].day == d && x.entries
                == g[j].entries.push(e)) || (x.entries == seq![e] && forall|j: int| 0 <= j < g.len()
                ==> g[j].day != d))
        } by {
            if k > 0 {
                assert(r[k] == g[k - 1]);
            } else {
                assert forall|j: int| 0 <= j < g.len() implies g[j].day != d by {
                    if j > 0 {
                        assert(g[0].day < g[j].day);
                    }
                }
            }
        }
        assert forall|j: int| 0 <= j < g.len() implies exists|k: int| 0 <= k < r.len() && r[k].day
            == #[trigger] g[j].day by {
            assert(r[j + 1] == g[j]);
        }
    } else if d == g[0].day {
        assert(r[0].day == d);
        assert forall|k: int| 0 <= k < r.len() implies {
            let x = #[trigger] r[k];
            &&& x.day != d ==> exists|j: int| 0 <= j < g.len() && g[j] == x
            &&& x.day == d ==> ((exists|j: int| 0 <= j < g.len() && g[j].day == d && x.entries
                == g[j].entries.push(e)) || (x.entries == seq![e] && forall|j: int| 0 <= j < g.len()
                ==> g[j].day != d))
        } by {
            if k > 0 {
                assert(r[k] == g[k]);
                assert(g[0].day < g[k].day);
            } else {
                assert(r[0].entries == g[0].entries.push(e));
            }
        }
        assert forall|j: int| 0 <= j < g.len() implies exists|k: int| 0 <= k < r.len() && r[k].day
            == #[trigger] g[j].day by {
            assert(r[j].day == g[j].day);
        }
    } else {
        let t = g.drop_first();
        assert(days_ascending(t)) by {
            assert forall|i: int, j: int| 0 <= i < j < t.len() implies t[i].day < t[j].day by {
                assert(t[i] == g[i + 1] && t[j] == g[j + 1]);
            }
        }
        lemma_file_members(t, e, d);
        let rt = file_under_day(t, e, d);
        assert(r == seq![g[0]] + rt);
        let kd = choose|k: int| 0 <= k < rt.len() && rt[k].day == d;
        assert(r[kd + 1].day == d);
        assert forall|k: int| 0 <= k < r.len() implies {
            let x = #[trigger] r[k];
            &&& x.day != d ==> exists|j: int| 0 <= j < g.len() && g[j] == x
            &&& x.day == d ==> ((exists|j: int| 0 <= j < g.len() && g[j].day == d && x.entries
                == g[j].entries.push(e)) || (x.entries == seq![e] && forall|j: int| 0 <= j < g.len()
                ==> g[j].day != d))
        } by {
            if k == 0 {
                assert(g[0] == r[0]);
            } else {
                let x = r[k];
                assert(x == rt[k - 1]);
                if x.day != d {
                    let j = choose|j: int| 0 <= j < t.len() && t[j] == x;
                    assert(g[j + 1] == x);
                } else if exists|j: int| 0 <= j < t.len() && t[j].day == d && x.entries == t[j].entries.push(e) {
                    let j = choose|j: int| 0 <= j < t.len() && t[j].day == d && x.entries == t[j].entries.push(e);
                    assert(g[j + 1] == t[j]);
                } else {
                    assert forall|j: int| 0 <= j < g.len() implies g[j].day != d by {
                        if j > 0 {
                            assert(g[j] == t[j - 1]);
                        }
                    }
                }
            }
        }
        assert forall|j: int| 0 <= j < g.len() implies exists|k: int| 0 <= k < r.len() && r[k].day
            == #[trigger] g[j].day by {
            if j == 0 {
                assert(r[0].day == g[0].day);
            } else {
                assert(t[j - 1] == g[j]);
                let k = choose|k: int| 0 <= k < rt.len() && rt[k].day == t[j - 1].day;
                assert(r[k + 1].day == g[j].day);
            }
        }
    }
}

proof fn lemma_file_skip(g: Seq<DayGroupView>, e: Entry, d: int, i: int)
    requires
        0 <= i <= g.len(),
        forall|k: int| 0 <= k < i ==> g[k].day < d,
    ensures
        file_under_day(g, e, d) == g.subrange(0, i) + file_under_day(g.subrange(i, g.len() as int), e, d),
    decreases i,
{
    if i == 0 {
        assert(g.subrange(0, 0) + g.subrange(0, g.len() as int) =~= g.subrange(0, g.len() as int));
        assert(g.subrange(0, g.len() as int) =~= g);
    } else {
        let t = g.drop_first();
        lemma_file_skip(t, e, d, i - 1);
        assert(t.subrange(i - 1, t.len() as int) =~= g.subrange(i, g.len() as int));
        assert(seq![g[0]] + t.subrange(0, i - 1) =~= g.subrange(0, i));
        assert(seq![g[0]] + (t.subrange(0, i - 1) + file_under_day(g.subrange(i, g.len() as int), e, d))
            =~= g.subrange(0, i) + file_under_day(g.subrange(i, g.len() as int), e, d));
    }
}

proof fn lemma_file_keeps(g: Seq<DayGroupView>, e: Entry, d: int, bound: int)
    requires
        forall|k: int| 0 <= k < g.len() ==> (#[trigger] g[k]).entries.len() <= bound,
        bound >= 0,
    ensures
        forall|k: int| 0 <= k < file_under_day(g, e, d).len() ==>
            (#[trigger] file_under_day(g, e, d)[k]).entries.len() <= bound + 1,
        days_ascending(g) ==> days_ascending(file_under_day(g, e, d)),
        forall|k: int| 0 <= k < file_under_day(g, e, d).len() ==>
            (#[trigger] file_under_day(g, e, d)[k]).day == d || exists|j: int| 0 <= j < g.len() && g[j].day
                == file_under_day(g, e, d)[k].day,
    decreases g.len(),
{
    let r = file_under_day(g, e, d);
    if g.len() == 0 {
    } else if d < g[0].day {
        assert forall|k: int| 0 <= k < r.len() implies (#[trigger] r[k]).day == d || exists|j: int|
            0 <= j < g.len() && g[j].day == r[k].day by {
            if k > 0 {
                assert(r[k] == g[k - 1]);
            }
        }
        if days_ascending(g) {
            assert forall|i: int, j: int| 0 <= i < j < r.len() implies r[i].day < r[j].day by {
                if i > 0 {
                    assert(r[i] == g[i - 1] && r[j] == g[j - 1]);
                } else {
                    assert(r[j] == g[j - 1]);
                    assert(g[0].day <= g[j - 1].day);
                }
            }
        }
    } else if d == g[0].day {
        assert forall|k: int| 0 <= k < r.len() implies (#[trigger] r[k]).day == d || exists|j: int|
            0 <= j < g.len() && g[j].day == r[k].day by {
            if k > 0 {
                assert(r[k] == g[k]);
            }
        }
    } else {
        let t = g.drop_first();
        assert forall|k: int| 0 <= k < t.len() implies (#[trigger] t[k]).entries.len() <= bound by {
            assert(t[k] == g[k + 1]);
        }
        lemma_file_keeps(t, e, d, bound);
        let rt = file_under_day(t, e, d);
        assert(r == seq![g[0]] + rt);
        assert forall|k: int| 0 <= k < r.len() implies (#[trigger] r[k]).entries.len() <= bound + 1 by {
            if k > 0 {
                assert(r[k] == rt[k - 1]);
            }
        }
        assert forall|k: int| 0 <= k < r.len() implies (#[trigger] r[k]).day == d || exists|j: int|
            0 <= j < g.len() && g[j].day == r[k].day by {
            if k == 0 {
                assert(g[0].day == r[0].day);
            } else {
                assert(r[k] == rt[k - 1]);
                if rt[k - 1].day != d {
                    let j = choose|j: int| 0 <= j < t.len() && t[j].day == rt[k - 1].day;
                    assert(g[j + 1].day == r[k].day);
                }
            }
        }
        if days_ascending(g) {
            assert(days_ascending(t)) by {
                assert forall|i: int, j: int| 0 <= i < j < t.len() implies t[i].day < t[j].day by {
                    assert(t[i] == g[i + 1] && t[j] == g[j + 1]);
                }
            }
            assert forall|k: int| 0 <= k < rt.len() implies g[0].day < (#[trigger] rt[k]).day by {
                if rt[k].day != d {
                    let j = choose|j: int| 0 <= j < t.len() && t[j].day == rt[k].day;
                    assert(g[0].day < g[j + 1].day);
                }
            }
            assert forall|i: int, j: int| 0 <= i < j < r.len() implies r[i].day < r[j].day by {
                assert(r[j] == rt[j - 1]);
                if i > 0 {
                    assert(r[i] == rt[i - 1]);
                }
            }
        }
    }
}

/// Grouping by day puts each entry in the group of its day and nowhere
/// else: each group holds exactly its day's entries, in their order.
pub proof fn lemma_day_groups_by_day(s: Seq<Entry>, offset: i32)
    ensures
        grouped_by_day(day_groups(s, offset), s, offset),
    decreases s.len(),
{
    if s.len() > 0 {
        let t = s.drop_last();
        let e = s.last();
        let d = local_day(e.time, offset);
        let g = day_groups(t, offset);
        let r = day_groups(s, offset);
        lemma_day_groups_by_day(t, offset);
        lemma_day_groups_shape(t, offset);
        lemma_file_members(g, e, d);
        assert(r == file_under_day(g, e, d));
        assert forall|k: int| 0 <= k < r.len() implies (#[trigger] r[k]).entries == of_day(s, r[k].day, offset) by {
            let x = r[k];
            if x.day != d {
                let j = choose|j: int| 0 <= j < g.len() && g[j] == x;
                assert(g[j].entries == of_day(t, g[j].day, offset));
            } else if exists|j: int| 0 <= j < g.len() && g[j].day == d && x.entries == g[j].entries.push(e) {
                let j = choose|j: int| 0 <= j < g.len() && g[j].day == d && x.entries == g[j].entries.push(e);
                assert(g[j].entries == of_day(t, g[j].day, offset));
            } else {
                assert forall|i: int| 0 <= i < t.len() implies local_day(#[trigger] t[i].time, offset) != d by {
                    if local_day(t[i].time, offset) == d {
                        let j = choose|j: int| 0 <= j < g.len() && g[j].day == local_day(t[i].time, offset);
                        assert(g[j].day == d);
                    }
                }
                lemma_of_day_empty(t, d, offset);
                assert(of_day(s, d, offset) =~= seq![e]);
            }
        }
        assert forall|i: int| 0 <= i < s.len() implies exists|k: int| 0 <= k < r.len() && r[k].day == local_day(
            #[trigger] s[i].time,
            offset,
        ) by {
            if i < s.len() - 1 {
                assert(t[i] == s[i]);
                let j = choose|j: int| 0 <= j < g.len() && g[j].day == local_day(t[i].time, offset);
                assert(exists|k: int| 0 <= k < r.len() && r[k].day == g[j].day);
            } else {
                assert(s[i] == e);
            }
        }
    }
}

/// Grouping by day keeps each group within the length of the list, and
/// gives one group per day, in ascending order.
proof fn lemma_day_groups_shape(s: Seq<Entry>, offset: i32)
    ensures
        forall|k: int| 0 <= k < day_groups(s, offset).len() ==>
            (#[trigger] day_groups(s, offset)[k]).entries.len() <= s.len(),
        days_ascending(day_groups(s, offset)),
    decreases s.len(),
{
    if s.len() > 0 {
        lemma_day_groups_shape(s.drop_last(), offset);
        lemma_file_keeps(day_groups(s.drop_last(), offset), s.last(), local_day(s.last().time, offset),
            s.len() - 1);
    }
}

proof fn lemma_duration_sum_bound(s: Seq<Entry>)
    ensures
        0 <= duration_sum(s) <= s.len() * 0xffff_ffff,
    decreases s.len(),
{
    if s.len() > 0 {
        lemma_duration_sum_bound(s.drop_last());
    }
}

fn day_of(time: i64, offset: i32) -> (r: i64)
    ensures
        r as int == local_day(time, offset),
{
    let v: i128 = time as i128 + offset as i128;
    if v >= 0 {
        (v / DAY_SECONDS as i128) as i64
    } else {
        let w: i128 = -v - 1;
        let q: i128 = w / 86400;
        proof {
            let vi = v as int;
            let wi = w as int;
            let qi = q as int;
            assert(wi == 86400 * qi + wi % 86400) by (nonlinear_arith)
                requires qi == wi / 86400, wi >= 0;
            assert(0 <= wi % 86400 < 86400) by (nonlinear_arith)
                requires wi >= 0;
            assert(vi == 86400 * (-qi - 1) + (86399 - wi % 86400));
            assert(vi / 86400 == -qi - 1) by (nonlinear_arith)
                requires vi == 86400 * (-qi - 1) + (86399 - wi % 86400), 0 <= 86399 - wi % 86400 < 86400;
        }
        (-q - 1) as i64
    }
}

/// The entries grouped by local day (for a local time `offset` seconds
/// ahead of UTC): one group per day, the days ascending, each group holding
/// that day's entries in their order and the total of their durations.
pub fn table_by_day(entries: &Vec<Entry>, offset: i32) -> (r: Vec<DayGroup>)
    requires
        entries.len() < 0xffff_ffff,
    ensures
        group_views(r@) == day_groups(entries@, offset),
        days_ascending(group_views(r@)),
        grouped_by_day(group_views(r@), entries@, offset),
        forall|k: int| 0 <= k < r.len() ==> #[trigger] r@[k].total == duration_sum(r@[k].entries@),
{
    let mut r: Vec<DayGroup> = Vec::new();
    let mut i: usize = 0;
    while i < entries.len()
        invariant
            0 <= i <= entries.len() < 0xffff_ffff,
            group_views(r@) == day_groups(entries@.subrange(0, i as int), offset),
            forall|k: int| 0 <= k < r.len() ==> #[trigger] r@[k].total == duration_sum(r@[k].entries@),
        decreases entries.len() - i,
    {
        let e = entries[i];
        let ghost part = entries@.subrange(0, i + 1);
        let ghost prev = entries@.subrange(0, i as int);
        assert(part.drop_last() =~= prev);
        assert(part.last() == e);
        proof {
            lemma_day_groups_shape(prev, offset);
        }
        let d = day_of(e.time, offset);
        let n = r.len();
        let ghost before = r@;
        let ghost gv = group_views(before);
        let mut j: usize = 0;
        while j < n && r[j].day < d
            invariant
                n == r.len(),
                r@ == before,
                gv == group_views(before),
                0 <= j <= n,
                forall|k: int| 0 <= k < j ==> gv[k].day < d,
            decreases n - j,
        {
            assert(gv[j as int] == r@[j as int]@);
            j = j + 1;
        }
        proof {
            lemma_file_skip(gv, e, d as int, j as int);
        }
        let ghost tail = gv.subrange(j as int, n as int);
        if j < n && r[j].day == d {
            assert(tail[0] == gv[j as int]);
            assert(gv[j as int] == r@[j as int]@);
            assert(r@[j as int].total == duration_sum(r@[j as int].entries@));
            let mut g = r.remove(j);
            proof {
                lemma_duration_sum_bound(g.entries@);
            }
            assert(g.entries@.len() <= i);
            assert(g.total + e.duration <= 0xffff_ffff_ffff_ffff) by (nonlinear_arith)
                requires
                    g.total <= g.entries@.len() * 0xffff_ffff,
                    g.entries@.len() <= i,
                    i < 0xffff_ffff,
                    e.duration <= 0xffff_ffff;
            g.total = g.total + e.duration as u64;
            let ghost old_entries = g.entries@;
            g.entries.push(e);
            assert(g.entries@.drop_last() =~= old_entries);
            assert(duration_sum(g.entries@) == duration_sum(old_entries) + e.duration);
            r.insert(j, g);
            assert(r@ =~= before.update(j as int, g));
            assert(file_under_day(tail, e, d as int) =~= tail.update(0, g@));
            assert(group_views(r@) =~= gv.subrange(0, j as int) + tail.update(0, g@));
        } else {
            if j < n {
                assert(tail[0] == gv[j as int]);
                assert(gv[j as int] == r@[j as int]@);
            }
            let mut v: Vec<Entry> = Vec::new();
            v.push(e);
            assert(v@.drop_last() =~= Seq::<Entry>::empty());
            assert(duration_sum(v@.drop_last()) == 0);
            assert(v@.last() == e);
            assert(duration_sum(v@) == e.duration);
            let g = DayGroup { day: d, entries: v, total: e.duration as u64 };
            assert(g@ == single_day(e, d as int));
            r.insert(j, g);
            assert(r@ =~= before.insert(j as int, g));
            assert(file_under_day(tail, e, d as int) =~= seq![g@] + tail);
            assert(group_views(r@) =~= gv.subrange(0, j as int) + (seq![g@] + tail));
        }
        assert forall|k: int| 0 <= k < r.len() implies #[trigger] r@[k].total == duration_sum(r@[k].entries@) by {
            if k < j {
                assert(r@[k] == before[k]);
            } else if k > j {
                if r.len() > n {
                    assert(r@[k] == before[k - 1]);
                } else {
                    assert(r@[k] == before[k]);
                }
            }
        }
        i = i + 1;
    }
    assert(entries@.subrange(0, entries.len() as int) =~= entries@);
    proof {
        lemma_day_groups_shape(entries@, offset);
        lemma_day_groups_by_day(entries@, offset);
    }
    r
}

/// The total duration, in seconds, of the entries of `s` on facet `facet`.
pub open spec fn facet_total(s: Seq<Entry>, facet: int) -> int
    decreases s.len(),
{
    if s.len() == 0 {
        0
    } else {
        facet_total(s.drop_last(), facet) + if s.last().facet == facet { s.last().duration as int } else { 0 }
    }
}

proof fn lemma_facet_total_bound(s: Seq<Entry>, facet: int)
    ensures
        0 <= facet_total(s, facet) <= duration_sum(s),
    decreases s.len(),
{
    if s.len() > 0 {
        lemma_facet_total_bound(s.drop_last(), facet);
    }
}

/// The total duration of the entries on each facet: the result has one slot
/// per facet index (256), holding the sum of the durations on that facet.
pub fn summarized(entries: &Vec<Entry>) -> (r: Vec<u64>)
    requires
        entries.len() < 0xffff_ffff,
    ensures
        r.len() == 256,
        forall|f: int| 0 <= f < 256 ==> #[trigger] r@[f] == facet_total(entries@, f),
{
    let mut r: Vec<u64> = Vec::new();
    let mut f: usize = 0;
    while f < 256
        invariant
            0 <= f <= 256,
            r.len() == f,
            forall|k: int| 0 <= k < f ==> #[trigger] r@[k] == 0,
        decreases 256 - f,
    {
        r.push(0);
        f = f + 1;
    }
    assert forall|k: int| 0 <= k < 256 implies #[trigger] r@[k] == facet_total(entries@.subrange(0, 0), k) by {}
    let mut i: usize = 0;
    while i < entries.len()
        invariant
            0 <= i <= entries.len() < 0xffff_ffff,
            r.len() == 256,
            forall|k: int| 0 <= k < 256 ==> #[trigger] r@[k] == facet_total(entries@.subrange(0, i as int), k),
        decreases entries.len() - i,
    {
        let e = entries[i];
        let ghost part = entries@.subrange(0, i + 1);
        let ghost prev = entries@.subrange(0, i as int);
        assert(part.drop_last() =~= prev);
        assert(part.last() == e);
        let k = e.facet as usize;
        proof {
            lemma_facet_total_bound(prev, k as int);
            lemma_duration_sum_bound(prev);
        }
        assert(r@[k as int] + e.duration <= 0xffff_ffff_ffff_ffff) by (nonlinear_arith)
            requires
                r@[k as int] <= prev.len() * 0xffff_ffff,
                prev.len() == i,
                i < 0xffff_ffff,
                e.duration <= 0xffff_ffff;
        let t = r[k] + e.duration as u64;
        r.set(k, t);
        i = i + 1;
    }
    assert(entries@.subrange(0, entries.len() as int) =~= entries@);
    r
}

} // verus!

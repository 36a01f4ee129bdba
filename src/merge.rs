use vstd::prelude::*;
use crate::entry::{Entry, strictly_ascending, has_id};

verus! {

/// `s` with `e` put before the first entry whose id is not below `e.id`;
/// unchanged when that entry already carries `e.id`.
pub open spec fn insert_by_id(s: Seq<Entry>, e: Entry) -> Seq<Entry>
    decreases s.len(),
{
    if s.len() == 0 {
        seq![e]
    } else if e.id < s[0].id {
        seq![e] + s
    } else if e.id == s[0].id {
        s
    } else {
        seq![s[0]] + insert_by_id(s.drop_first(), e)
    }
}

/// The history that results from merging `incoming` into `existing`, one
/// incoming entry after another; an id that is already present keeps its
/// entry.
pub open spec fn merged(existing: Seq<Entry>, incoming: Seq<Entry>) -> Seq<Entry>
    decreases incoming.len(),
{
    if incoming.len() == 0 {
        existing
    } else {
        insert_by_id(merged(existing, incoming.drop_last()), incoming.last())
    }
}

/// The largest id of `s`, or 0 when `s` is empty.
pub open spec fn max_id(s: Seq<Entry>) -> u32
    decreases s.len(),
{
    if s.len() == 0 {
        0
    } else {
        let m = max_id(s.drop_last());
        if s.last().id > m { s.last().id } else { m }
    }
}

/// Where reading from the device resumes after `history`: the requested id if
/// there is one, else one past the largest id, else `first_id` (0 or 1,
/// depending on how the device counts).
pub open spec fn resume_id(history: Seq<Entry>, requested: Option<u32>, first_id: u32) -> int {
    match requested {
        Some(id) => id as int,
        None => if history.len() == 0 { first_id as int } else { max_id(history) + 1 },
    }
}

proof fn lemma_insert_skip(s: Seq<Entry>, e: Entry, i: int)
    requires
        0 <= i <= s.len(),
        forall|k: int| 0 <= k < i ==> s[k].id < e.id,
    ensures
        insert_by_id(s, e) == s.subrange(0, i) + insert_by_id(s.subrange(i, s.len() as int), e),
    decreases i,
{
    if i == 0 {
        assert(s.subrange(0, 0) + s.subrange(0, s.len() as int) =~= s.subrange(0, s.len() as int));
        assert(s.subrange(0, s.len() as int) =~= s);
    } else {
        let t = s.drop_first();
        lemma_insert_skip(t, e, i - 1);
        assert(t.subrange(i - 1, t.len() as int) =~= s.subrange(i, s.len() as int));
        assert(seq![s[0]] + t.subrange(0, i - 1) =~= s.subrange(0, i));
        assert(seq![s[0]] + (t.subrange(0, i - 1) + insert_by_id(s.subrange(i, s.len() as int), e))
            =~= s.subrange(0, i) + insert_by_id(s.subrange(i, s.len() as int), e));
    }
}

/// What inserting one entry keeps: order, the ids, and the entries present.
proof fn lemma_insert_keeps(s: Seq<Entry>, e: Entry)
    requires
        strictly_ascending(s),
    ensures
        strictly_ascending(insert_by_id(s, e)),
        forall|x: Entry| #[trigger] insert_by_id(s, e).contains(x) <==>
            (s.contains(x) || (x == e && !has_id(s, e.id))),
        has_id(s, e.id) ==> insert_by_id(s, e) == s,
    decreases s.len(),
{
    let r = insert_by_id(s, e);
    if s.len() == 0 {
        assert(r[0] == e);
    } else if e.id < s[0].id {
        assert forall|x: Entry| #[trigger] r.contains(x) <==> (s.contains(x) || (x == e && !has_id(s, e.id))) by {
            if x == e {
                assert(r[0] == e);
                if has_id(s, e.id) {
                    let k = choose|k: int| 0 <= k < s.len() && s[k].id == e.id;
                    if k > 0 { assert(s[0].id < s[k].id); }
                }
            }
            if s.contains(x) {
                let k = choose|k: int| 0 <= k < s.len() && s[k] == x;
                assert(r[k + 1] == x);
            }
            if r.contains(x) {
                let k = choose|k: int| 0 <= k < r.len() && r[k] == x;
                if k > 0 { assert(s[k - 1] == x); }
            }
        }
    } else if e.id == s[0].id {
    } else {
        let t = s.drop_first();
        lemma_insert_keeps(t, e);
        let rt = insert_by_id(t, e);
        assert(r == seq![s[0]] + rt);
        assert forall|k: int| 0 <= k < rt.len() implies s[0].id < #[trigger] rt[k].id by {
            assert(rt.contains(rt[k]));
            if t.contains(rt[k]) {
                let j = choose|j: int| 0 <= j < t.len() && t[j] == rt[k];
                assert(s[0].id < s[j + 1].id);
            }
        }
        assert forall|i: int, j: int| 0 <= i < j < r.len() implies r[i].id < r[j].id by {
            if i > 0 {
                assert(r[i] == rt[i - 1] && r[j] == rt[j - 1]);
            } else {
                assert(r[j] == rt[j - 1]);
            }
        }
        assert(has_id(s, e.id) ==> has_id(t, e.id)) by {
            if has_id(s, e.id) {
                let k = choose|k: int| 0 <= k < s.len() && s[k].id == e.id;
                assert(t[k - 1].id == e.id);
            }
        }
        assert(has_id(t, e.id) ==> has_id(s, e.id)) by {
            if has_id(t, e.id) {
                let k = choose|k: int| 0 <= k < t.len() && t[k].id == e.id;
                assert(s[k + 1].id == e.id);
            }
        }
        if has_id(s, e.id) {
            assert(r =~= s);
        }
        assert forall|x: Entry| #[trigger] r.contains(x) <==> (s.contains(x) || (x == e && !has_id(s, e.id))) by {
            if s.contains(x) {
                let k = choose|k: int| 0 <= k < s.len() && s[k] == x;
                if k == 0 { assert(r[0] == x); } else { assert(t[k - 1] == x); assert(rt.contains(x)); let j = choose|j: int| 0 <= j < rt.len() && rt[j] == x; assert(r[j + 1] == x); }
            }
            if r.contains(x) {
                let k = choose|k: int| 0 <= k < r.len() && r[k] == x;
                if k == 0 { assert(s[0] == x); } else { assert(rt[k - 1] == x); assert(rt.contains(x)); if t.contains(x) { let j = choose|j: int| 0 <= j < t.len() && t[j] == x; assert(s[j + 1] == x); } }
            }
            if x == e && !has_id(s, e.id) {
                assert(!has_id(t, e.id));
                assert(rt.contains(e));
                let j = choose|j: int| 0 <= j < rt.len() && rt[j] == e;
                assert(r[j + 1] == e);
            }
        }
    }
}


/// Merging into a history whose ids ascend strictly gives a history whose ids
/// ascend strictly and which holds every id of either side exactly once; an id
/// already in `existing` keeps the entry it has there, and the other entries
/// come from `incoming`.
pub proof fn lemma_merge_laws(existing: Seq<Entry>, incoming: Seq<Entry>)
    requires
        strictly_ascending(existing),
    ensures
        strictly_ascending(merged(existing, incoming)),
        forall|id: u32| #[trigger] has_id(merged(existing, incoming), id) <==>
            (has_id(existing, id) || has_id(incoming, id)),
        forall|x: Entry| existing.contains(x) ==> #[trigger] merged(existing, incoming).contains(x),
        forall|x: Entry| #[trigger] merged(existing, incoming).contains(x) ==>
            (existing.contains(x) || (incoming.contains(x) && !has_id(existing, x.id))),
    decreases incoming.len(),
{
    if incoming.len() > 0 {
        let rest = incoming.drop_last();
        let e = incoming.last();
        let prev = merged(existing, rest);
        let m = merged(existing, incoming);
        lemma_merge_laws(existing, rest);
        lemma_insert_keeps(prev, e);
        assert(m == insert_by_id(prev, e));
        assert forall|x: Entry| rest.contains(x) implies incoming.contains(x) by {
            let k = choose|k: int| 0 <= k < rest.len() && rest[k] == x;
            assert(incoming[k] == x);
        }
        assert(incoming.contains(e)) by {
            assert(incoming[incoming.len() - 1] == e);
        }
        assert forall|id: u32| #[trigger] has_id(m, id) <==> (has_id(existing, id) || has_id(incoming, id)) by {
            if has_id(m, id) {
                let k = choose|k: int| 0 <= k < m.len() && m[k].id == id;
                assert(m.contains(m[k]));
                if prev.contains(m[k]) {
                    let j = choose|j: int| 0 <= j < prev.len() && prev[j] == m[k];
                    assert(has_id(prev, id));
                } else {
                    assert(incoming[incoming.len() - 1].id == id);
                }
            }
            if has_id(incoming, id) {
                let k = choose|k: int| 0 <= k < incoming.len() && incoming[k].id == id;
                if k < incoming.len() - 1 {
                    assert(rest[k].id == id);
                    assert(has_id(prev, id));
                }
            }
            if has_id(prev, id) {
                let k = choose|k: int| 0 <= k < prev.len() && prev[k].id == id;
                assert(prev.contains(prev[k]));
                assert(m.contains(prev[k]));
                let j = choose|j: int| 0 <= j < m.len() && m[j] == prev[k];
                assert(m[j].id == id);
            }
            if id == e.id && !has_id(prev, id) {
                assert(m.contains(e));
                let j = choose|j: int| 0 <= j < m.len() && m[j] == e;
                assert(m[j].id == id);
            }
        }
    }
}

/// Merging a batch a second time changes nothing.
pub proof fn lemma_merge_idempotent(existing: Seq<Entry>, incoming: Seq<Entry>)
    requires
        strictly_ascending(existing),
    ensures
        merged(merged(existing, incoming), incoming) == merged(existing, incoming),
{
    let m = merged(existing, incoming);
    lemma_merge_laws(existing, incoming);
    assert forall|k: int| 0 <= k < incoming.len() implies #[trigger] has_id(m, incoming[k].id) by {
        assert(has_id(incoming, incoming[k].id));
    }
    lemma_merge_present(m, incoming);
}

/// Merging entries whose ids are all present already changes nothing.
proof fn lemma_merge_present(s: Seq<Entry>, incoming: Seq<Entry>)
    requires
        strictly_ascending(s),
        forall|k: int| 0 <= k < incoming.len() ==> #[trigger] has_id(s, incoming[k].id),
    ensures
        merged(s, incoming) == s,
    decreases incoming.len(),
{
    if incoming.len() > 0 {
        let rest = incoming.drop_last();
        assert forall|k: int| 0 <= k < rest.len() implies #[trigger] has_id(s, rest[k].id) by {
            assert(rest[k] == incoming[k]);
        }
        lemma_merge_present(s, rest);
        assert(has_id(s, incoming[incoming.len() - 1].id));
        lemma_insert_keeps(s, incoming.last());
    }
}


/// Puts `e` into `history` at its place by id, unless its id is there already.
fn insert_entry(history: &mut Vec<Entry>, e: Entry)
    ensures
        final(history)@ == insert_by_id(old(history)@, e),
{
    let n = history.len();
    let mut i: usize = 0;
    while i < n && history[i].id < e.id
        invariant
            n == history.len(),
            0 <= i <= n,
            forall|k: int| 0 <= k < i ==> history@[k].id < e.id,
        decreases n - i,
    {
        i = i + 1;
    }
    proof {
        lemma_insert_skip(history@, e, i as int);
    }
    let tail = Ghost(history@.subrange(i as int, n as int));
    if i == n {
        assert(tail@ =~= Seq::<Entry>::empty());
        assert(history@.subrange(0, i as int) =~= history@);
        history.push(e);
        assert(history@ =~= old(history)@ + seq![e]);
    } else if history[i].id == e.id {
        assert(tail@[0] == history@[i as int]);
        assert(history@.subrange(0, i as int) + tail@ =~= history@);
    } else {
        assert(tail@[0] == history@[i as int]);
        let ghost before = history@;
        history.insert(i, e);
        assert(history@ =~= before.subrange(0, i as int) + (seq![e] + tail@));
    }
}

/// Merges `incoming` into `existing`: each incoming entry is put at its place
/// by id, and an id that is present already keeps the entry it has.
pub fn merge(existing: &Vec<Entry>, incoming: &Vec<Entry>) -> (r: Vec<Entry>)
    ensures
        r@ == merged(existing@, incoming@),
        strictly_ascending(existing@) ==> {
            &&& strictly_ascending(r@)
            &&& forall|id: u32| #[trigger] has_id(r@, id) <==> (has_id(existing@, id) || has_id(incoming@, id))
            &&& forall|x: Entry| existing@.contains(x) ==> #[trigger] r@.contains(x)
            &&& forall|x: Entry| #[trigger] r@.contains(x) ==>
                (existing@.contains(x) || (incoming@.contains(x) && !has_id(existing@, x.id)))
        },
{
    let mut r: Vec<Entry> = Vec::new();
    let mut i: usize = 0;
    while i < existing.len()
        invariant
            0 <= i <= existing.len(),
            r@ == existing@.subrange(0, i as int),
        decreases existing.len() - i,
    {
        r.push(existing[i]);
        i = i + 1;
        assert(r@ =~= existing@.subrange(0, i as int));
    }
    assert(existing@.subrange(0, existing.len() as int) =~= existing@);
    let mut j: usize = 0;
    while j < incoming.len()
        invariant
            0 <= j <= incoming.len(),
            r@ == merged(existing@, incoming@.subrange(0, j as int)),
        decreases incoming.len() - j,
    {
        insert_entry(&mut r, incoming[j]);
        j = j + 1;
        let ghost part = incoming@.subrange(0, j as int);
        assert(part.drop_last() =~= incoming@.subrange(0, j - 1));
    }
    assert(incoming@.subrange(0, incoming.len() as int) =~= incoming@);
    proof {
        if strictly_ascending(existing@) {
            lemma_merge_laws(existing@, incoming@);
        }
    }
    r
}

/// Where reading from the device resumes after `history`: the requested id if
/// there is one, else one past the largest id, else `first_id`.
pub fn next_start_id(history: &Vec<Entry>, requested: Option<u32>, first_id: u32) -> (r: u64)
    ensures
        r as int == resume_id(history@, requested, first_id),
{
    match requested {
        Some(id) => id as u64,
        None => {
            if history.len() == 0 {
                first_id as u64
            } else {
                let mut m: u32 = 0;
                let mut i: usize = 0;
                while i < history.len()
                    invariant
                        0 <= i <= history.len(),
                        m == max_id(history@.subrange(0, i as int)),
                    decreases history.len() - i,
                {
                    let ghost part = history@.subrange(0, i + 1);
                    assert(part.drop_last() =~= history@.subrange(0, i as int));
                    if history[i].id > m {
                        m = history[i].id;
                    }
                    i = i + 1;
                }
                assert(history@.subrange(0, history.len() as int) =~= history@);
                m as u64 + 1
            }
        },
    }
}

} // verus!

use vstd::prelude::*;
use crate::entry::{
    Entry, EntryEdit, EntryEditView, FacetConfig, edit_of, edit_views, edits_ascending, end_fits,
    strictly_ascending, has_id,
};
use crate::merge::{merge, merged, lemma_merge_laws};

verus! {

/// `id` lies in the range from `start` to `end`, both included; no `end`
/// leaves the range open.
pub open spec fn in_id_range(id: u32, start: u32, end: Option<u32>) -> bool {
    start <= id && match end {
        Some(e) => id <= e,
        None => true,
    }
}

/// The entries of `s` whose ids lie in the range, in their order.
pub open spec fn selected(s: Seq<Entry>, start: u32, end: Option<u32>) -> Seq<Entry>
    decreases s.len(),
{
    if s.len() == 0 {
        s
    } else if in_id_range(s.last().id, start, end) {
        selected(s.drop_last(), start, end).push(s.last())
    } else {
        selected(s.drop_last(), start, end)
    }
}

/// Every entry's end fits the timestamp type.
pub open spec fn all_end_fit(s: Seq<Entry>) -> bool {
    forall|i: int| 0 <= i < s.len() ==> end_fits(#[trigger] s[i])
}

/// What is handed to the editor for a batch fetched from the device: the
/// batch ordered by id without repeated ids, cut to the id range, in edit
/// form.
pub open spec fn exported_of(
    fetched: Seq<Entry>,
    start: u32,
    end: Option<u32>,
    names: Seq<Option<Seq<char>>>,
) -> Seq<EntryEditView> {
    selected(merged(Seq::empty(), fetched), start, end).map_values(|e: Entry| edit_of(e, names))
}

proof fn lemma_selected_members(s: Seq<Entry>, start: u32, end: Option<u32>)
    ensures
        forall|x: Entry| #[trigger] selected(s, start, end).contains(x) <==>
            (s.contains(x) && in_id_range(x.id, start, end)),
        strictly_ascending(s) ==> strictly_ascending(selected(s, start, end)),
    decreases s.len(),
{
    if s.len() > 0 {
        let rest = s.drop_last();
        lemma_selected_members(rest, start, end);
        let k = selected(s, start, end);
        let kr = selected(rest, start, end);
        assert forall|x: Entry| #[trigger] k.contains(x) <==> (s.contains(x) && in_id_range(x.id, start, end)) by {
            if k.contains(x) {
                let i = choose|i: int| 0 <= i < k.len() && k[i] == x;
                if i < kr.len() {
                    assert(kr.contains(x));
                    let j = choose|j: int| 0 <= j < rest.len() && rest[j] == x;
                    assert(s[j] == x);
                } else {
                    assert(s[s.len() - 1] == x);
                }
            }
            if s.contains(x) && in_id_range(x.id, start, end) {
                let j = choose|j: int| 0 <= j < s.len() && s[j] == x;
                if j < s.len() - 1 {
                    assert(rest[j] == x);
                    assert(kr.contains(x));
                    let i = choose|i: int| 0 <= i < kr.len() && kr[i] == x;
                    assert(k[i] == x);
                } else {
                    assert(k[k.len() - 1] == x);
                }
            }
        }
        if strictly_ascending(s) {
            assert(strictly_ascending(rest));
            if in_id_range(s.last().id, start, end) {
                assert forall|i: int, j: int| 0 <= i < j < k.len() implies k[i].id < k[j].id by {
                    if j == k.len() - 1 {
                        assert(kr.contains(k[i]));
                        let a = choose|a: int| 0 <= a < rest.len() && rest[a] == k[i];
                        assert(s[a] == k[i]);
                    }
                }
            }
        }
    }
}

/// The edit form of the entries of `fetched` whose ids lie in the range
/// from `start_id` to `end_id`, ordered by id and without repeated ids, each
/// facet labelled through `config`; `None` when an entry's end does not fit
/// the timestamp type.
pub fn export_entries(
    fetched: &Vec<Entry>,
    start_id: u32,
    end_id: Option<u32>,
    config: &FacetConfig,
) -> (r: Option<Vec<EntryEdit>>)
    ensures
        r is Some <==> all_end_fit(fetched@),
        r matches Some(v) ==> edit_views(v@) == exported_of(fetched@, start_id, end_id, config@),
{
    let mut i: usize = 0;
    while i < fetched.len()
        invariant
            0 <= i <= fetched.len(),
            forall|k: int| 0 <= k < i ==> end_fits(#[trigger] fetched@[k]),
        decreases fetched.len() - i,
    {
        let e = fetched[i];
        if e.time > i64::MAX - e.duration as i64 {
            assert(!end_fits(fetched@[i as int]));
            return None;
        }
        i = i + 1;
    }
    let empty: Vec<Entry> = Vec::new();
    let ordered = merge(&empty, fetched);
    proof {
        lemma_merge_laws(Seq::empty(), fetched@);
        lemma_selected_members(ordered@, start_id, end_id);
    }
    let ghost chosen = selected(ordered@, start_id, end_id);
    let mut out: Vec<EntryEdit> = Vec::new();
    let mut picked: Vec<Entry> = Vec::new();
    let mut j: usize = 0;
    while j < ordered.len()
        invariant
            0 <= j <= ordered.len(),
            all_end_fit(fetched@),
            forall|x: Entry| #[trigger] ordered@.contains(x) ==> fetched@.contains(x),
            picked@ == selected(ordered@.subrange(0, j as int), start_id, end_id),
            edit_views(out@) == picked@.map_values(|e: Entry| edit_of(e, config@)),
        decreases ordered.len() - j,
    {
        let e = ordered[j];
        let ghost part = ordered@.subrange(0, j + 1);
        assert(part.drop_last() =~= ordered@.subrange(0, j as int));
        assert(part.last() == e);
        if (start_id <= e.id) && match end_id {
            Some(last) => e.id <= last,
            None => true,
        } {
            proof {
                assert(ordered@[j as int] == e);
                assert(ordered@.contains(e));
                let k = choose|k: int| 0 <= k < fetched@.len() && fetched@[k] == e;
                assert(end_fits(fetched@[k]));
            }
            let ed = EntryEdit::from_entry_with_config(&e, config);
            let ghost oo = out@;
            let ghost op = picked@;
            assert(oo.len() == op.len()) by {
                assert(edit_views(oo).len() == op.map_values(|e: Entry| edit_of(e, config@)).len());
            }
            out.push(ed);
            picked.push(e);
            assert forall|k: int| 0 <= k < out@.len() implies #[trigger] edit_views(out@)[k]
                == picked@.map_values(|e: Entry| edit_of(e, config@))[k] by {
                if k < oo.len() {
                    assert(out@[k] == oo[k]);
                    assert(picked@[k] == op[k]);
                    assert(edit_views(oo)[k] == op.map_values(|e: Entry| edit_of(e, config@))[k]);
                }
            }
            assert(edit_views(out@) =~= picked@.map_values(|e: Entry| edit_of(e, config@)));
        }
        j = j + 1;
    }
    assert(ordered@.subrange(0, ordered.len() as int) =~= ordered@);
    Some(out)
}


/// The largest id of a sequence of edit entries, or 0 when it is empty.
pub open spec fn edit_max_id(s: Seq<EntryEditView>) -> u32
    decreases s.len(),
{
    if s.len() == 0 {
        0
    } else {
        let m = edit_max_id(s.drop_last());
        if s.last().id > m { s.last().id } else { m }
    }
}

/// The first id to fetch when editing after `history`: the requested id if
/// there is one, else one past the largest id, else 1; `None` when the
/// largest id is the last one there is.
pub open spec fn resume_edit_id(history: Seq<EntryEditView>, requested: Option<u32>) -> Option<u32> {
    match requested {
        Some(id) => Some(id),
        None => if history.len() == 0 {
            Some(1u32)
        } else if edit_max_id(history) < u32::MAX {
            Some((edit_max_id(history) + 1) as u32)
        } else {
            None
        },
    }
}

/// Edited entries may be appended to `history`: their ids ascend strictly
/// and all lie above every id of `history`.
pub open spec fn accepted(history: Seq<EntryEditView>, edited: Seq<EntryEditView>) -> bool {
    &&& edits_ascending(edited)
    &&& forall|i: int, j: int| 0 <= i < history.len() && 0 <= j < edited.len() ==>
        history[i].id < edited[j].id
}

proof fn lemma_edit_max_id(s: Seq<EntryEditView>)
    ensures
        forall|i: int| 0 <= i < s.len() ==> (#[trigger] s[i]).id <= edit_max_id(s),
    decreases s.len(),
{
    if s.len() > 0 {
        lemma_edit_max_id(s.drop_last());
        assert forall|i: int| 0 <= i < s.len() implies (#[trigger] s[i]).id <= edit_max_id(s) by {
            if i < s.len() - 1 {
                assert(s.drop_last()[i] == s[i]);
            }
        }
    }
}

/// The first id to fetch when editing after `history`: the requested id if
/// there is one, else one past the largest id, else 1.
pub fn next_edit_id(history: &Vec<EntryEdit>, requested: Option<u32>) -> (r: Option<u32>)
    ensures
        r == resume_edit_id(edit_views(history@), requested),
{
    match requested {
        Some(id) => Some(id),
        None => {
            if history.len() == 0 {
                return Some(1);
            }
            let mut m: u32 = 0;
            let mut i: usize = 0;
            while i < history.len()
                invariant
                    0 <= i <= history.len(),
                    m == edit_max_id(edit_views(history@.subrange(0, i as int))),
                decreases history.len() - i,
            {
                let ghost part = edit_views(history@.subrange(0, i + 1));
                assert(part.drop_last() =~= edit_views(history@.subrange(0, i as int)));
                assert(part.last() == history@[i as int]@);
                if history[i].id > m {
                    m = history[i].id;
                }
                i = i + 1;
            }
            assert(history@.subrange(0, history.len() as int) =~= history@);
            if m < u32::MAX {
                Some(m + 1)
            } else {
                None
            }
        },
    }
}

/// Whether `edited` may be appended to `history`: its ids ascend strictly
/// and all lie above every id of `history`.
pub fn is_acceptable(history: &Vec<EntryEdit>, edited: &Vec<EntryEdit>) -> (r: bool)
    ensures
        r == accepted(edit_views(history@), edit_views(edited@)),
{
    let ghost h = edit_views(history@);
    let ghost x = edit_views(edited@);
    if !is_ordered(edited) {
        return false;
    }
    assert(edits_ascending(x));
    if edited.len() == 0 {
        return true;
    }
    let first = edited[0].id;
    let mut k: usize = 0;
    while k < history.len()
        invariant
            0 <= k <= history.len(),
            h == edit_views(history@),
            x == edit_views(edited@),
            edited.len() > 0,
            first == x[0].id,
            forall|a: int| 0 <= a < k ==> (#[trigger] h[a]).id < first,
        decreases history.len() - k,
    {
        if history[k].id >= first {
            assert(h[k as int].id >= x[0].id);
            return false;
        }
        k = k + 1;
    }
    assert forall|a: int, b: int| 0 <= a < h.len() && 0 <= b < x.len() implies h[a].id < x[b].id by {
        if b > 0 {
            assert(x[0].id < x[b].id);
        }
    }
    true
}

/// `history` followed by `edited`.
pub fn appended(history: &Vec<EntryEdit>, edited: Vec<EntryEdit>) -> (r: Vec<EntryEdit>)
    ensures
        edit_views(r@) == edit_views(history@) + edit_views(edited@),
{
    let mut r: Vec<EntryEdit> = Vec::new();
    let mut i: usize = 0;
    while i < history.len()
        invariant
            0 <= i <= history.len(),
            edit_views(r@) == edit_views(history@.subrange(0, i as int)),
        decreases history.len() - i,
    {
        let ghost before = r@;
        assert(before.len() == i) by {
            assert(edit_views(before).len() == edit_views(history@.subrange(0, i as int)).len());
        }
        let d = history[i].duplicate();
        r.push(d);
        proof {
            assert(r@[i as int] == d);
            assert(history@.subrange(0, i + 1)[i as int] == history@[i as int]);
            assert forall|k: int| 0 <= k < r@.len() implies #[trigger] edit_views(r@)[k]
                == edit_views(history@.subrange(0, i + 1))[k] by {
                if k < before.len() {
                    assert(r@[k] == before[k]);
                    assert(edit_views(before)[k] == edit_views(history@.subrange(0, i as int))[k]);
                }
            }
            assert(edit_views(r@) =~= edit_views(history@.subrange(0, i + 1)));
        }
        i = i + 1;
    }
    assert(history@.subrange(0, history.len() as int) =~= history@);
    let ghost front = r@;
    let mut rest = edited;
    let ghost tail = rest@;
    r.append(&mut rest);
    assert(r@ == front + tail);
    assert(edit_views(r@) =~= edit_views(front) + edit_views(tail));
    r
}


/// Some entry of `s` carries `id`.
pub open spec fn edit_has_id(s: Seq<EntryEditView>, id: u32) -> bool {
    exists|k: int| 0 <= k < s.len() && s[k].id == id
}

/// An edit that hands back exactly what was exported is accepted after a
/// history whose ids ascend strictly, when reading resumed past it; the
/// history then saved keeps every old entry in front, its ids still ascend
/// strictly, so none repeats, and they are exactly the old ids and the
/// fetched ids within the range.
pub proof fn lemma_noop_edit_round_trip(
    history: Seq<EntryEditView>,
    fetched: Seq<Entry>,
    end: Option<u32>,
    names: Seq<Option<Seq<char>>>,
)
    requires
        edits_ascending(history),
        resume_edit_id(history, None) is Some,
    ensures
        ({
            let start = resume_edit_id(history, None)->Some_0;
            let x = exported_of(fetched, start, end, names);
            let c = history + x;
            &&& accepted(history, x)
            &&& edits_ascending(c)
            &&& c.subrange(0, history.len() as int) == history
            &&& forall|id: u32| #[trigger] edit_has_id(c, id) <==>
                (edit_has_id(history, id) || (has_id(fetched, id) && in_id_range(id, start, end)))
        }),
{
    let start = resume_edit_id(history, None)->Some_0;
    let m = merged(Seq::empty(), fetched);
    let sel = selected(m, start, end);
    let x = exported_of(fetched, start, end, names);
    let c = history + x;
    assert(strictly_ascending(Seq::<Entry>::empty()));
    lemma_merge_laws(Seq::empty(), fetched);
    lemma_selected_members(m, start, end);
    lemma_edit_max_id(history);
    assert(x.len() == sel.len());
    assert forall|k: int| 0 <= k < x.len() implies (#[trigger] x[k]).id == sel[k].id && in_id_range(sel[k].id, start, end) by {
        assert(sel.contains(sel[k]));
    }
    assert forall|i: int, j: int| 0 <= i < history.len() && 0 <= j < x.len() implies history[i].id < x[j].id by {
        assert(history[i].id <= edit_max_id(history));
        assert(x[j].id == sel[j].id);
    }
    assert forall|i: int, j: int| 0 <= i < j < x.len() implies x[i].id < x[j].id by {
        assert(x[i].id == sel[i].id);
        assert(x[j].id == sel[j].id);
    }
    assert(accepted(history, x));
    assert forall|i: int, j: int| 0 <= i < j < c.len() implies c[i].id < c[j].id by {
        if j < history.len() {
        } else if i >= history.len() {
            assert(c[i] == x[i - history.len()]);
            assert(c[j] == x[j - history.len()]);
        } else {
            assert(c[j] == x[j - history.len()]);
        }
    }
    assert(c.subrange(0, history.len() as int) =~= history);
    assert forall|id: u32| #[trigger] edit_has_id(c, id) <==>
        (edit_has_id(history, id) || (has_id(fetched, id) && in_id_range(id, start, end))) by {
        if edit_has_id(c, id) {
            let k = choose|k: int| 0 <= k < c.len() && c[k].id == id;
            if k < history.len() {
                assert(history[k].id == id);
            } else {
                let e = sel[k - history.len()];
                assert(x[k - history.len()].id == e.id);
                assert(sel.contains(e));
                assert(m.contains(e));
                let a = choose|a: int| 0 <= a < m.len() && m[a] == e;
                assert(has_id(m, id));
            }
        }
        if edit_has_id(history, id) {
            let k = choose|k: int| 0 <= k < history.len() && history[k].id == id;
            assert(c[k].id == id);
        }
        if has_id(fetched, id) && in_id_range(id, start, end) {
            assert(has_id(m, id));
            let a = choose|a: int| 0 <= a < m.len() && m[a].id == id;
            assert(m.contains(m[a]));
            assert(sel.contains(m[a]));
            let b = choose|b: int| 0 <= b < sel.len() && sel[b] == m[a];
            assert(x[b].id == id);
            assert(c[history.len() + b].id == id);
        }
    }
}

/// Whether the ids of `v` ascend strictly.
pub fn is_ordered(v: &Vec<EntryEdit>) -> (r: bool)
    ensures
        r == edits_ascending(edit_views(v@)),
{
    let ghost x = edit_views(v@);
    let mut i: usize = 1;
    while i < v.len()
        invariant
            1 <= i,
            i <= v.len() || v.len() == 0,
            x == edit_views(v@),
            forall|a: int, b: int| 0 <= a < b < i && b < v.len() ==> x[a].id < x[b].id,
        decreases v.len() - i,
    {
        if v[i - 1].id >= v[i].id {
            assert(x[i - 1].id >= x[i as int].id);
            return false;
        }
        assert(x[i - 1].id < x[i as int].id);
        i = i + 1;
    }
    true
}

} // verus!

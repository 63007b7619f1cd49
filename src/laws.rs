//! Properties that relate several operations of the registry and of its
//! saved form.
use crate::codec::{
    fields_of, import_from, is_savable, is_saved_form, lemma_import_listing, lemma_render_lines,
    lines_of, loaded, parse_record, render,
};
use crate::registry::{added, lists, is_top_id, lemma_top_id_unique, next_id, with_completed};
use crate::task::TaskView;
use vstd::prelude::*;

verus! {

/// The registry reached from `m` by adding tasks with descriptions `descs`,
/// in order.
pub open spec fn add_all(m: Map<u32, TaskView>, descs: Seq<Seq<char>>) -> Map<u32, TaskView>
    decreases descs.len(),
{
    if descs.len() == 0 {
        m
    } else {
        added(add_all(m, descs.drop_last()), descs.last())
    }
}

/// The registry whose tasks are `descs`, numbered 1, 2, 3, ... in order, none completed.
pub open spec fn numbered(descs: Seq<Seq<char>>) -> Map<u32, TaskView> {
    Map::new(|k: u32| 1 <= k <= descs.len(), |k: u32| TaskView::fresh(descs[k - 1]))
}

proof fn lemma_add_all_numbers(descs: Seq<Seq<char>>)
    requires
        descs.len() <= u32::MAX,
    ensures
        add_all(Map::empty(), descs) == numbered(descs),
        descs.len() < u32::MAX ==> next_id(numbered(descs)) == descs.len() + 1,
    decreases descs.len(),
{
    let n = descs.len();
    if n == 0 {
        assert(numbered(descs) =~= Map::<u32, TaskView>::empty());
    } else {
        let prev = descs.drop_last();
        lemma_add_all_numbers(prev);
        assert forall|k: u32| 1 <= k <= prev.len() implies #[trigger] prev[k - 1] == descs[k - 1] by {}
        assert(numbered(prev) =~= Map::new(
            |k: u32| 1 <= k <= prev.len(),
            |k: u32| TaskView::fresh(descs[k - 1]),
        ));
        assert(add_all(Map::empty(), descs) =~= numbered(descs));
    }
    if n < u32::MAX {
        let m = numbered(descs);
        if n == 0 {
            assert(m.dom() =~= Set::empty());
        } else {
            assert(m.contains_key(n as u32));
            assert(is_top_id(m, n as u32));
            lemma_top_id_unique(m, n as u32);
        }
    }
}

/// Adding tasks to an empty registry, with no deletion between, numbers
/// them 1, 2, 3, ... in the order in which they were added.
pub proof fn lemma_adds_number_from_one(descs: Seq<Seq<char>>)
    requires
        descs.len() <= u32::MAX,
    ensures
        forall|i: int| 0 <= i < descs.len() ==> next_id(#[trigger] add_all(Map::empty(), descs.take(i))) == i + 1,
        add_all(Map::empty(), descs) == numbered(descs),
{
    lemma_add_all_numbers(descs);
    assert forall|i: int| 0 <= i < descs.len() implies next_id(
        #[trigger] add_all(Map::empty(), descs.take(i)),
    ) == i + 1 by {
        lemma_add_all_numbers(descs.take(i));
    }
}

/// Deleting the task with the largest identifier and then adding a task
/// gives the new task that same identifier again, when the identifier
/// below it is in use or it was 1. Interior gaps are never filled.
pub proof fn lemma_delete_top_then_add(m: Map<u32, TaskView>, top: u32, d: Seq<char>)
    requires
        is_top_id(m, top),
        top >= 1,
        top == 1 || m.contains_key((top - 1) as u32),
    ensures
        next_id(m.remove(top)) == top,
        added(m.remove(top), d) == m.remove(top).insert(top, TaskView::fresh(d)),
{
    let rest = m.remove(top);
    assert forall|j: u32| rest.contains_key(j) implies j <= top - 1 by {
        assert(m.contains_key(j));
    }
    if top == 1 && !rest.contains_key(0) {
        assert forall|k: u32| !rest.contains_key(k) by {
            if rest.contains_key(k) {
                assert(k <= 0);
            }
        }
        assert(rest.dom() =~= Set::empty());
    } else {
        assert(is_top_id(rest, (top - 1) as u32));
        lemma_top_id_unique(rest, (top - 1) as u32);
        assert(rest.contains_key((top - 1) as u32));
        assert(!rest.dom().is_empty());
    }
}

/// Marking a task completed twice leaves the registry as marking it once does.
pub proof fn lemma_complete_idempotent(m: Map<u32, TaskView>, id: u32)
    requires
        m.contains_key(id),
    ensures
        with_completed(with_completed(m, id), id) == with_completed(m, id),
{
    assert(with_completed(with_completed(m, id), id) =~= with_completed(m, id));
}

/// Loading a saved form of a registry whose descriptions are savable gives
/// back exactly that registry, and succeeds.
pub proof fn lemma_load_after_save(m: Map<u32, TaskView>, text: Seq<char>)
    requires
        is_saved_form(m, text),
        forall|k: u32| m.contains_key(k) ==> is_savable(#[trigger] m[k].description),
    ensures
        loaded(text) == (m, true),
{
    let es = choose|es: Seq<(u32, TaskView)>| lists(es, m) && text == render(es);
    assert forall|i: int| 0 <= i < es.len() implies is_savable(#[trigger] es[i].1.description) by {
        assert(m.contains_key(es[i].0));
    }
    lemma_render_lines(es);
    lemma_import_listing(es, Map::empty(), m);
}

proof fn lemma_bad_line_fails(lines: Seq<Seq<char>>, m: Map<u32, TaskView>, i: int)
    requires
        0 <= i < lines.len(),
        parse_record(lines[i]) is None,
    ensures
        !import_from(lines, m).1,
    decreases i,
{
    if i > 0 {
        if let Some((id, t)) = parse_record(lines[0]) {
            if !m.contains_key(id) {
                assert(lines.drop_first()[i - 1] == lines[i]);
                lemma_bad_line_fails(lines.drop_first(), m.insert(id, t), i - 1);
            }
        }
    }
}

proof fn lemma_present_id_fails(lines: Seq<Seq<char>>, m: Map<u32, TaskView>, j: int, id: u32)
    requires
        0 <= j < lines.len(),
        m.contains_key(id),
        parse_record(lines[j]) matches Some(r) && r.0 == id,
    ensures
        !import_from(lines, m).1,
    decreases j,
{
    if j > 0 {
        if let Some((k, t)) = parse_record(lines[0]) {
            if !m.contains_key(k) {
                assert(lines.drop_first()[j - 1] == lines[j]);
                lemma_present_id_fails(lines.drop_first(), m.insert(k, t), j - 1, id);
            }
        }
    }
}

proof fn lemma_repeat_fails(lines: Seq<Seq<char>>, m: Map<u32, TaskView>, i: int, j: int, id: u32)
    requires
        0 <= i < j < lines.len(),
        parse_record(lines[i]) matches Some(r) && r.0 == id,
        parse_record(lines[j]) matches Some(r) && r.0 == id,
    ensures
        !import_from(lines, m).1,
    decreases i,
{
    if let Some((k, t)) = parse_record(lines[0]) {
        if !m.contains_key(k) {
            let rest = lines.drop_first();
            assert(rest[j - 1] == lines[j]);
            if i == 0 {
                lemma_present_id_fails(rest, m.insert(k, t), j - 1, id);
            } else {
                assert(rest[i - 1] == lines[i]);
                lemma_repeat_fails(rest, m.insert(k, t), i - 1, j - 1, id);
            }
        }
    }
}

/// Loading fails when any line of the text does not split into exactly
/// three fields.
pub proof fn lemma_wrong_field_count_fails(text: Seq<char>, i: int)
    requires
        0 <= i < lines_of(text).len(),
        fields_of(lines_of(text)[i]).len() != 3,
    ensures
        !loaded(text).1,
{
    lemma_bad_line_fails(lines_of(text), Map::empty(), i);
}

/// Loading fails when two lines of the text are records with the same
/// identifier, whatever else they hold.
pub proof fn lemma_repeated_id_fails(text: Seq<char>, i: int, j: int, id: u32)
    requires
        0 <= i < j < lines_of(text).len(),
        parse_record(lines_of(text)[i]) matches Some(r) && r.0 == id,
        parse_record(lines_of(text)[j]) matches Some(r) && r.0 == id,
    ensures
        !loaded(text).1,
{
    lemma_repeat_fails(lines_of(text), Map::empty(), i, j, id);
}

} // verus!

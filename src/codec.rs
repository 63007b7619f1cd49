//! The saved form of a registry: one record per line,
//! `<id>|||<description>|||<true|false>`, each line ending in a newline.
use crate::registry::{lists, views_of_entries, TodoError, TodoList};
use crate::task::{Task, TaskView};
use crate::text::{
    bool_text, chars_of, decimal, is_digit, lemma_decimal_reads_back, lemma_parse_decimal,
    parse_bool, parse_u32, push_decimal, read_bool, read_u32, string_of,
};
use vstd::prelude::*;

verus! {

/// The field separator of a record.
pub open spec fn delimiter() -> Seq<char> {
    seq!['|', '|', '|']
}

/// A separator starts at position `i` of `s`.
pub open spec fn is_delimiter_at(s: Seq<char>, i: int) -> bool {
    &&& 0 <= i
    &&& i + 3 <= s.len()
    &&& s[i] == '|'
    &&& s[i + 1] == '|'
    &&& s[i + 2] == '|'
}

/// The fields of `s` from a field that began at `start`, scanning for the
/// next separator from position `i`; separators are taken leftmost first
/// and never overlap.
pub open spec fn fields_from(s: Seq<char>, start: int, i: int) -> Seq<Seq<char>>
    decreases s.len() - i,
{
    if i + 3 > s.len() {
        seq![s.subrange(start, s.len() as int)]
    } else if is_delimiter_at(s, i) {
        seq![s.subrange(start, i)] + fields_from(s, i + 3, i + 3)
    } else {
        fields_from(s, start, i + 1)
    }
}

/// The pieces of `s` between separators.
pub open spec fn fields_of(s: Seq<char>) -> Seq<Seq<char>> {
    fields_from(s, 0, 0)
}

/// The record for one task, without its line end.
pub open spec fn record_line(id: u32, t: TaskView) -> Seq<char> {
    decimal(id as nat) + delimiter() + t.description + delimiter() + bool_text(t.completed)
}

/// The text for a sequence of tasks, one line each, in that order.
pub open spec fn render(es: Seq<(u32, TaskView)>) -> Seq<char>
    decreases es.len(),
{
    if es.len() == 0 {
        Seq::empty()
    } else {
        render(es.drop_last()) + record_line(es.last().0, es.last().1).push('\n')
    }
}

/// `text` is a saved form of `m`: its tasks, one line each, in some order.
pub open spec fn is_saved_form(m: Map<u32, TaskView>, text: Seq<char>) -> bool {
    exists|es: Seq<(u32, TaskView)>| lists(es, m) && text == render(es)
}

/// A line without a carriage return that ended it.
pub open spec fn strip_cr(l: Seq<char>) -> Seq<char> {
    if l.len() > 0 && l.last() == '\r' {
        l.drop_last()
    } else {
        l
    }
}

/// Reading `s` from the start: the lines finished by a newline, and the
/// characters read since the last newline.
pub open spec fn scan_lines(s: Seq<char>) -> (Seq<Seq<char>>, Seq<char>)
    decreases s.len(),
{
    if s.len() == 0 {
        (Seq::empty(), Seq::empty())
    } else {
        let (done, cur) = scan_lines(s.drop_last());
        if s.last() == '\n' {
            (done.push(strip_cr(cur)), Seq::empty())
        } else {
            (done, cur.push(s.last()))
        }
    }
}

/// The lines of `s`: split at each newline, a `\r` before the newline
/// dropped, and a last line kept only if it is not empty.
pub open spec fn lines_of(s: Seq<char>) -> Seq<Seq<char>> {
    let (done, cur) = scan_lines(s);
    if cur.len() == 0 {
        done
    } else {
        done.push(cur)
    }
}

/// The task that a line describes, if it is a well-formed record.
pub open spec fn parse_record(line: Seq<char>) -> Option<(u32, TaskView)> {
    let f = fields_of(line);
    if f.len() == 3 && parse_u32(f[0]) is Some && parse_bool(f[2]) is Some {
        Some((parse_u32(f[0])->0, TaskView { description: f[1], completed: parse_bool(f[2])->0 }))
    } else {
        None
    }
}

/// Adding the records of `lines` to `m` one by one: the registry reached,
/// and whether every line was a record with an identifier not yet present.
/// Reading stops at the first line that fails.
pub open spec fn import_from(lines: Seq<Seq<char>>, m: Map<u32, TaskView>) -> (
    Map<u32, TaskView>,
    bool,
)
    decreases lines.len(),
{
    if lines.len() == 0 {
        (m, true)
    } else {
        match parse_record(lines[0]) {
            Some((id, t)) => {
                if m.contains_key(id) {
                    (m, false)
                } else {
                    import_from(lines.drop_first(), m.insert(id, t))
                }
            },
            None => (m, false),
        }
    }
}

/// The registry that loading `text` leaves, and whether loading succeeded.
pub open spec fn loaded(text: Seq<char>) -> (Map<u32, TaskView>, bool) {
    import_from(lines_of(text), Map::empty())
}

/// The character sequences held by a vector of character vectors.
pub open spec fn views_of(v: Seq<Vec<char>>) -> Seq<Seq<char>> {
    v.map_values(|f: Vec<char>| f@)
}

/// The characters of `s` from `a` up to `b`.
fn slice_of(s: &Vec<char>, a: usize, b: usize) -> (r: Vec<char>)
    requires
        a <= b <= s.len(),
    ensures
        r@ == s@.subrange(a as int, b as int),
{
    let mut r: Vec<char> = Vec::new();
    let mut i: usize = a;
    while i < b
        invariant
            a <= i <= b <= s.len(),
            r@ == s@.subrange(a as int, i as int),
        decreases b - i,
    {
        r.push(s[i]);
        i = i + 1;
        assert(r@ =~= s@.subrange(a as int, i as int));
    }
    r
}

/// Splits `s` at each separator, as `fields_of` describes.
pub fn split_fields(s: &Vec<char>) -> (r: Vec<Vec<char>>)
    ensures
        views_of(r@) == fields_of(s@),
{
    let mut fields: Vec<Vec<char>> = Vec::new();
    let mut start: usize = 0;
    let mut i: usize = 0;
    while s.len() - i >= 3
        invariant
            start <= i <= s.len(),
            views_of(fields@) + fields_from(s@, start as int, i as int) == fields_of(s@),
        decreases s.len() - i,
    {
        if s[i] == '|' && s[i + 1] == '|' && s[i + 2] == '|' {
            let f = slice_of(s, start, i);
            let ghost before = fields@;
            fields.push(f);
            assert(views_of(fields@) =~= views_of(before).push(f@));
            i = i + 3;
            start = i;
        } else {
            i = i + 1;
        }
    }
    let f = slice_of(s, start, s.len());
    let ghost before = fields@;
    fields.push(f);
    assert(views_of(fields@) =~= views_of(before).push(f@));
    fields
}

/// Splits `s` into lines, as `lines_of` describes.
pub fn split_lines(s: &Vec<char>) -> (r: Vec<Vec<char>>)
    ensures
        views_of(r@) == lines_of(s@),
{
    let mut lines: Vec<Vec<char>> = Vec::new();
    let mut cur: Vec<char> = Vec::new();
    let mut i: usize = 0;
    while i < s.len()
        invariant
            i <= s.len(),
            (views_of(lines@), cur@) == scan_lines(s@.take(i as int)),
        decreases s.len() - i,
    {
        let c = s[i];
        assert(s@.take(i + 1).drop_last() =~= s@.take(i as int));
        if c == '\n' {
            if cur.len() > 0 && cur[cur.len() - 1] == '\r' {
                cur.pop();
            }
            let ghost before = lines@;
            lines.push(cur);
            assert(views_of(lines@) =~= views_of(before).push(cur@));
            cur = Vec::new();
        } else {
            cur.push(c);
        }
        i = i + 1;
    }
    assert(s@.take(i as int) =~= s@);
    if cur.len() > 0 {
        let ghost before = lines@;
        lines.push(cur);
        assert(views_of(lines@) =~= views_of(before).push(cur@));
    }
    lines
}

/// Reads one record, as `parse_record` describes.
pub fn read_record(line: &Vec<char>) -> (r: Option<(u32, Task)>)
    ensures
        r matches Some((id, t)) ==> parse_record(line@) == Some((id, t@)),
        r is None ==> parse_record(line@) is None,
{
    let fields = split_fields(line);
    if fields.len() != 3 {
        return None;
    }
    assert(fields@[0]@ == fields_of(line@)[0]);
    assert(fields@[1]@ == fields_of(line@)[1]);
    assert(fields@[2]@ == fields_of(line@)[2]);
    let id = match read_u32(&fields[0]) {
        Some(id) => id,
        None => return None,
    };
    let done = match read_bool(&fields[2]) {
        Some(b) => b,
        None => return None,
    };
    let description = string_of(&fields[1]);
    Some((id, Task { task_description: description, is_completed: done }))
}

/// Appends the record for task `id` with its line end to `out`.
fn push_record(out: &mut Vec<char>, id: u32, t: &Task)
    ensures
        final(out)@ == old(out)@ + record_line(id, t@).push('\n'),
{
    push_decimal(out, id);
    out.push('|');
    out.push('|');
    out.push('|');
    let mut d = chars_of(t.task_description.as_str());
    out.append(&mut d);
    out.push('|');
    out.push('|');
    out.push('|');
    if t.is_completed {
        out.push('t');
        out.push('r');
        out.push('u');
        out.push('e');
    } else {
        out.push('f');
        out.push('a');
        out.push('l');
        out.push('s');
        out.push('e');
    }
    out.push('\n');
    assert(out@ =~= old(out)@ + record_line(id, t@).push('\n'));
}

impl TodoList {
    /// The saved form of the list: one record per task, in the order in
    /// which the list hands its tasks out.
    pub fn export_text(&self) -> (text: String)
        ensures
            is_saved_form(self@, text@),
    {
        let entries = self.entries();
        let ghost es = views_of_entries(entries@);
        let mut out: Vec<char> = Vec::new();
        let mut i: usize = 0;
        while i < entries.len()
            invariant
                i <= entries.len(),
                es == views_of_entries(entries@),
                lists(es, self@),
                out@ == render(es.take(i as int)),
            decreases entries.len() - i,
        {
            push_record(&mut out, entries[i].0, &entries[i].1);
            i = i + 1;
            assert(es.take(i as int).drop_last() =~= es.take(i - 1));
        }
        assert(es.take(i as int) =~= es);
        string_of(&out)
    }

    /// Replaces the list by the tasks that `text` holds, read line by line.
    /// The list is emptied first; reading stops at the first line that is
    /// not a record, or that repeats an identifier already read, with
    /// `InvalidData`, and the tasks read before that line stay.
    pub fn import_text(&mut self, text: &str) -> (r: Result<(), TodoError>)
        ensures
            final(self)@ == loaded(text@).0,
            r is Ok <==> loaded(text@).1,
            r is Err ==> r == Err::<(), TodoError>(TodoError::InvalidData),
    {
        self.clear();
        let chars = chars_of(text);
        let lines = split_lines(&chars);
        let ghost ls = lines_of(text@);
        let mut i: usize = 0;
        assert(ls.skip(0) =~= ls);
        while i < lines.len()
            invariant
                i <= lines.len(),
                views_of(lines@) == ls,
                ls == lines_of(text@),
                import_from(ls.skip(i as int), self@) == loaded(text@),
            decreases lines.len() - i,
        {
            assert(ls.skip(i as int)[0] == lines@[i as int]@);
            assert(ls.skip(i as int).drop_first() =~= ls.skip(i + 1));
            match read_record(&lines[i]) {
                Some((id, t)) => {
                    if self.contains(id) {
                        return Err(TodoError::InvalidData);
                    }
                    self.insert_new(id, t);
                },
                None => {
                    return Err(TodoError::InvalidData);
                },
            }
            i = i + 1;
        }
        assert(ls.skip(i as int) =~= Seq::<Seq<char>>::empty());
        Ok(())
    }
}

/// A description that survives saving and loading: it holds no separator
/// and no newline, and does not end in `|`.
pub open spec fn is_savable(d: Seq<char>) -> bool {
    &&& forall|i: int| !is_delimiter_at(d, i)
    &&& forall|i: int| 0 <= i < d.len() ==> d[i] != '\n'
    &&& (d.len() > 0 ==> d.last() != '|')
}

proof fn lemma_fields_skip(s: Seq<char>, start: int, i: int, j: int)
    requires
        0 <= start <= i <= j,
        j + 3 <= s.len(),
        forall|k: int| i <= k < j ==> !is_delimiter_at(s, k),
    ensures
        fields_from(s, start, i) == fields_from(s, start, j),
    decreases j - i,
{
    if i < j {
        lemma_fields_skip(s, start, i + 1, j);
    }
}

proof fn lemma_fields_tail(s: Seq<char>, start: int, i: int)
    requires
        0 <= start <= i,
        start <= s.len(),
        forall|k: int| i <= k ==> !is_delimiter_at(s, k),
    ensures
        fields_from(s, start, i) == seq![s.subrange(start, s.len() as int)],
    decreases s.len() - i,
{
    if i + 3 <= s.len() {
        lemma_fields_tail(s, start, i + 1);
    }
}

proof fn lemma_record_fields(id: u32, t: TaskView)
    requires
        is_savable(t.description),
    ensures
        fields_of(record_line(id, t)) == seq![decimal(id as nat), t.description, bool_text(t.completed)],
{
    let dd = decimal(id as nat);
    let desc = t.description;
    let bb = bool_text(t.completed);
    let s = record_line(id, t);
    let a = dd.len() as int;
    let b = a + 3 + desc.len();
    lemma_decimal_reads_back(id as nat);
    assert(s.len() == b + 3 + bb.len());
    assert forall|k: int| 0 <= k < a implies !is_delimiter_at(s, k) by {
        assert(s[k] == dd[k]);
        assert(is_digit(dd[k]));
    }
    lemma_fields_skip(s, 0, 0, a);
    assert(is_delimiter_at(s, a));
    assert forall|k: int| a + 3 <= k < b implies !is_delimiter_at(s, k) by {
        if k + 2 < b {
            if is_delimiter_at(s, k) {
                assert(s[k] == desc[k - a - 3]);
                assert(s[k + 1] == desc[k - a - 2]);
                assert(s[k + 2] == desc[k - a - 1]);
                assert(is_delimiter_at(desc, k - a - 3));
            }
        } else {
            assert(s[b - 1] == desc.last());
        }
    }
    lemma_fields_skip(s, a + 3, a + 3, b);
    assert(is_delimiter_at(s, b));
    assert forall|k: int| b + 3 <= k implies !is_delimiter_at(s, k) by {
        if b + 3 <= k < s.len() {
            assert(s[k] == bb[k - b - 3]);
        }
    }
    lemma_fields_tail(s, b + 3, b + 3);
    assert(s.subrange(0, a) =~= dd);
    assert(s.subrange(a + 3, b) =~= desc);
    assert(s.subrange(b + 3, s.len() as int) =~= bb);
}

/// The record of a task with a savable description reads back as that task.
pub proof fn lemma_record_reads_back(id: u32, t: TaskView)
    requires
        is_savable(t.description),
    ensures
        parse_record(record_line(id, t)) == Some((id, t)),
{
    lemma_record_fields(id, t);
    lemma_parse_decimal(id);
}

proof fn lemma_scan_append(p: Seq<char>, l: Seq<char>)
    requires
        forall|i: int| 0 <= i < l.len() ==> l[i] != '\n',
    ensures
        scan_lines(p + l) == (scan_lines(p).0, scan_lines(p).1 + l),
    decreases l.len(),
{
    if l.len() == 0 {
        assert(p + l =~= p);
        assert(scan_lines(p).1 + l =~= scan_lines(p).1);
    } else {
        let l0 = l.drop_last();
        lemma_scan_append(p, l0);
        assert((p + l).drop_last() =~= p + l0);
        assert(scan_lines(p).1 + l =~= (scan_lines(p).1 + l0).push(l.last()));
    }
}

/// The records of `es`, one per entry, in order.
pub open spec fn record_lines(es: Seq<(u32, TaskView)>) -> Seq<Seq<char>> {
    es.map_values(|e: (u32, TaskView)| record_line(e.0, e.1))
}

pub(crate) proof fn lemma_render_lines(es: Seq<(u32, TaskView)>)
    requires
        forall|i: int| 0 <= i < es.len() ==> is_savable(#[trigger] es[i].1.description),
    ensures
        scan_lines(render(es)) == (record_lines(es), Seq::<char>::empty()),
        lines_of(render(es)) == record_lines(es),
    decreases es.len(),
{
    if es.len() == 0 {
        assert(record_lines(es) =~= Seq::<Seq<char>>::empty());
    } else {
        let prev = es.drop_last();
        let e = es.last();
        assert(is_savable(es[es.len() - 1].1.description));
        lemma_render_lines(prev);
        let line = record_line(e.0, e.1);
        let dd = decimal(e.0 as nat);
        lemma_decimal_reads_back(e.0 as nat);
        assert forall|i: int| 0 <= i < line.len() implies line[i] != '\n' by {
            if i < dd.len() {
                assert(is_digit(dd[i]));
            }
        }
        lemma_scan_append(render(prev), line);
        assert(Seq::<char>::empty() + line =~= line);
        let full = render(prev) + line.push('\n');
        assert(full.drop_last() =~= render(prev) + line);
        assert(line.last() == 'e');
        assert(record_lines(es) =~= record_lines(prev).push(line));
    }
}

pub(crate) proof fn lemma_import_listing(
    es: Seq<(u32, TaskView)>,
    acc: Map<u32, TaskView>,
    m: Map<u32, TaskView>,
)
    requires
        forall|i: int| 0 <= i < es.len() ==> #[trigger] m.contains_key(es[i].0) && m[es[i].0] == es[i].1,
        forall|i: int, j: int| 0 <= i < j < es.len() ==> es[i].0 != es[j].0,
        forall|i: int| 0 <= i < es.len() ==> is_savable(#[trigger] es[i].1.description),
        forall|i: int| 0 <= i < es.len() ==> !acc.contains_key(#[trigger] es[i].0),
        acc.submap_of(m),
        forall|k: u32|
            m.contains_key(k) ==> acc.contains_key(k) || exists|i: int|
                0 <= i < es.len() && es[i].0 == k,
    ensures
        import_from(record_lines(es), acc) == (m, true),
    decreases es.len(),
{
    if es.len() == 0 {
        assert forall|k: u32| m.contains_key(k) implies acc.contains_key(k) by {
            if !acc.contains_key(k) {
                let i = choose|i: int| 0 <= i < es.len() && es[i].0 == k;
            }
            assert(acc.dom().contains(k));
            assert(acc[k] == m[k]);
        }
        assert forall|k: u32| acc.contains_key(k) implies m.contains_key(k) by {
            assert(acc.dom().contains(k));
        }
        assert(acc.dom() =~= m.dom());
        assert(acc =~= m);
    } else {
        let e = es[0];
        assert(m.contains_key(es[0].0));
        assert(is_savable(es[0].1.description));
        lemma_record_reads_back(e.0, e.1);
        let rest = es.drop_first();
        assert(record_lines(es).drop_first() =~= record_lines(rest));
        let acc2 = acc.insert(e.0, e.1);
        assert forall|i: int| 0 <= i < rest.len() implies #[trigger] m.contains_key(rest[i].0)
            && m[rest[i].0] == rest[i].1 by {
            assert(rest[i] == es[i + 1]);
            assert(m.contains_key(es[i + 1].0));
        }
        assert forall|i: int| 0 <= i < rest.len() implies is_savable(
            #[trigger] rest[i].1.description,
        ) by {
            assert(rest[i] == es[i + 1]);
            assert(is_savable(es[i + 1].1.description));
        }
        assert forall|i: int| 0 <= i < rest.len() implies !acc2.contains_key(#[trigger] rest[i].0) by {
            assert(rest[i] == es[i + 1]);
            assert(!acc.contains_key(es[i + 1].0));
        }
        assert forall|k: u32| m.contains_key(k) implies acc2.contains_key(k) || exists|i: int|
            0 <= i < rest.len() && rest[i].0 == k by {
            if !acc2.contains_key(k) {
                let i = choose|i: int| 0 <= i < es.len() && es[i].0 == k;
                assert(i != 0);
                assert(rest[i - 1].0 == k);
            }
        }
        lemma_import_listing(rest, acc2, m);
    }
}

} // verus!

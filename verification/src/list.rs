//! The ordered collection of records: appending parsed lines, sorting by
//! priority, and moving the whole collection to and from lines of text.

use vstd::prelude::*;

use crate::line::{serializable, spec_parse_line, spec_serialize};
use crate::record::{RecordModel, TodoError, TodoItem};
use crate::text::is_blank;

verus! {

broadcast use vstd::seq_lib::group_to_multiset_ensures;

/// An ordered list of records; insertion order is the order the tasks
/// were added or read.
#[derive(Debug)]
pub struct TodoList {
    pub items: Vec<TodoItem>,
}

impl View for TodoList {
    type V = Seq<RecordModel>;

    open spec fn view(&self) -> Seq<RecordModel> {
        self.items.deep_view()
    }
}

impl Default for TodoList {
    fn default() -> (r: TodoList)
        ensures
            r@ == Seq::<RecordModel>::empty(),
    {
        let r = TodoList { items: Vec::new() };
        proof {
            assert(r@ =~= Seq::<RecordModel>::empty());
        }
        r
    }
}

/// The sort rank of a priority: its letter's position, with an unset
/// priority ranking below every letter.
pub open spec fn prio_rank(p: Option<char>) -> int {
    match p {
        Some(c) => c as int,
        None => -1,
    }
}

/// Descending by priority rank: highest letters first, unset last.
pub open spec fn sorted_by_priority(s: Seq<RecordModel>) -> bool {
    forall|i: int, j: int|
        0 <= i < j < s.len() ==> prio_rank(#[trigger] s[i].priority) >= prio_rank(
            #[trigger] s[j].priority,
        )
}

fn char_code(c: char) -> (r: u32)
    ensures
        r as int == c as int,
{
    c as u32
}

fn rank_of(item: &TodoItem) -> (r: i64)
    ensures
        r == prio_rank(item@.priority),
{
    match item.priority {
        Some(c) => char_code(c) as i64,
        None => -1,
    }
}

/// The meaning of a whole file: blank lines are skipped, every other
/// line contributes its record, in order.
pub open spec fn spec_load_lines(lines: Seq<Seq<char>>) -> Seq<RecordModel>
    decreases lines.len(),
{
    if lines.len() == 0 {
        Seq::empty()
    } else if is_blank(lines[0]) {
        spec_load_lines(lines.drop_first())
    } else {
        seq![spec_parse_line(lines[0])] + spec_load_lines(lines.drop_first())
    }
}

impl TodoList {
    /// Parses one line of input and appends the new record.
    pub fn add_item(&mut self, input: &str) -> (r: Result<(), TodoError>)
        ensures
            r is Ok,
            final(self)@ == old(self)@.push(spec_parse_line(input@)),
    {
        match TodoItem::parse_line(input) {
            Ok(item) => {
                self.items.push(item);
                proof {
                    assert(self@ =~= old(self)@.push(spec_parse_line(input@)));
                }
                Ok(())
            },
            Err(e) => Err(e),
        }
    }

    /// Reorders the records by descending priority rank, unset priorities
    /// last. No record is duplicated, dropped, or changed.
    pub fn sort_by_priority(&mut self)
        ensures
            final(self).items@.to_multiset() == old(self).items@.to_multiset(),
            sorted_by_priority(final(self)@),
    {
        let ghost ms = self.items@.to_multiset();
        let mut idx: usize = 1;
        while idx < self.items.len()
            invariant
                1 <= idx,
                idx <= self.items.len() || self.items.len() == 0,
                self.items@.to_multiset() == ms,
                forall|a: int, b: int|
                    0 <= a < b < idx ==> prio_rank(#[trigger] self.items@[a]@.priority)
                        >= prio_rank(#[trigger] self.items@[b]@.priority),
            decreases self.items.len() - idx,
        {
            let ghost v0 = self.items@;
            let x = self.items.remove(idx);
            let ghost v1 = self.items@;
            proof {
                assert(v0[idx as int] == x);
                assert(v0.contains(x));
                assert(v1.to_multiset() == ms.remove(x));
                assert(forall|k: int| 0 <= k < idx ==> v1[k] == v0[k]);
            }
            let rx = rank_of(&x);
            let mut j: usize = 0;
            while j < idx && rank_of(&self.items[j]) >= rx
                invariant
                    0 <= j <= idx,
                    idx < v1.len() + 1,
                    self.items@ == v1,
                    rx == prio_rank(x@.priority),
                    forall|k: int| 0 <= k < j ==> prio_rank(#[trigger] v1[k]@.priority) >= rx,
                decreases idx - j,
            {
                j += 1;
            }
            proof {
                if j < idx {
                    assert(prio_rank(v1[j as int]@.priority) < rx);
                }
            }
            self.items.insert(j, x);
            proof {
                let v2 = self.items@;
                assert(v2 == v1.insert(j as int, x));
                assert(v2.to_multiset() == v1.to_multiset().insert(x));
                assert(ms.remove(x).insert(x) =~= ms);
                assert(forall|k: int| 0 <= k < j ==> v2[k] == v1[k]);
                assert(v2[j as int] == x);
                assert(forall|k: int| j < k < v2.len() ==> v2[k] == v1[k - 1]);
                assert forall|a: int, b: int|
                    0 <= a < b < idx + 1 implies prio_rank(#[trigger] v2[a]@.priority)
                    >= prio_rank(#[trigger] v2[b]@.priority) by {
                    if a < j && b < j {
                    } else if b == j {
                        assert(prio_rank(v2[a]@.priority) >= rx);
                    } else if a == j {
                        assert(v2[b] == v1[b - 1]);
                        if j < idx {
                            assert(prio_rank(v1[j as int]@.priority) < rx);
                            if b - 1 > j {
                                assert(prio_rank(v1[j as int]@.priority) >= prio_rank(
                                    v1[b - 1]@.priority,
                                ));
                            }
                        }
                    } else if a < j {
                        assert(prio_rank(v2[a]@.priority) >= rx);
                        assert(v2[b] == v1[b - 1]);
                        if j < idx {
                            if b - 1 > j {
                                assert(prio_rank(v1[j as int]@.priority) >= prio_rank(
                                    v1[b - 1]@.priority,
                                ));
                            }
                            assert(prio_rank(v1[b - 1]@.priority) < rx);
                        }
                    } else {
                        assert(v2[a] == v1[a - 1] && v2[b] == v1[b - 1]);
                    }
                }
            }
            idx += 1;
        }
        proof {
            let dv = self.items.deep_view();
            assert(forall|k: int|
                0 <= k < dv.len() ==> #[trigger] dv[k] == self.items@[k].deep_view());
            if self.items.len() > 1 {
                assert(forall|a: int, b: int|
                    0 <= a < b < self.items@.len() ==> prio_rank(
                        #[trigger] self.items@[a]@.priority,
                    ) >= prio_rank(#[trigger] self.items@[b]@.priority));
            }
            assert(sorted_by_priority(self@));
        }
    }

    /// Rebuilds a collection from the lines of a file: blank lines are
    /// skipped, every other line is parsed, in order.
    pub fn load_from_lines(lines: &Vec<String>) -> (r: Result<TodoList, TodoError>)
        ensures
            r matches Ok(list) && list@ == spec_load_lines(lines.deep_view()),
    {
        let lv = Ghost(lines.deep_view());
        let mut items: Vec<TodoItem> = Vec::new();
        let mut i: usize = 0;
        proof {
            assert(lv@.skip(0) =~= lv@);
            assert(items.deep_view() + spec_load_lines(lv@) =~= spec_load_lines(lv@));
        }
        while i < lines.len()
            invariant
                0 <= i <= lines.len(),
                lv@ == lines.deep_view(),
                items.deep_view() + spec_load_lines(lv@.skip(i as int)) == spec_load_lines(lv@),
            decreases lines.len() - i,
        {
            let ghost dv = items.deep_view();
            proof {
                assert(lv@.skip(i as int)[0] == lv@[i as int]);
                assert(lv@.skip(i as int).drop_first() =~= lv@.skip(i + 1));
            }
            if !crate::text::line_is_blank(lines[i].as_str()) {
                match TodoItem::parse_line(lines[i].as_str()) {
                    Ok(item) => {
                        items.push(item);
                        proof {
                            assert(items.deep_view() =~= dv.push(item@));
                            assert(dv.push(item@) + spec_load_lines(lv@.skip(i + 1)) =~= dv + (seq![
                                spec_parse_line(lv@[i as int]),
                            ] + spec_load_lines(lv@.skip(i + 1))));
                        }
                    },
                    Err(e) => {
                        return Err(e);
                    },
                }
            }
            i += 1;
        }
        proof {
            assert(lv@.skip(lines.len() as int) =~= Seq::<Seq<char>>::empty());
            assert(items.deep_view() + spec_load_lines(Seq::<Seq<char>>::empty())
                =~= items.deep_view());
        }
        Ok(TodoList { items })
    }

    /// Writes every record as its canonical line, in collection order.
    /// Fails, with nothing produced, exactly when some record holds a
    /// completion date without a creation date.
    pub fn save_to_lines(&self) -> (r: Result<Vec<String>, TodoError>)
        ensures
            (forall|i: int| 0 <= i < self@.len() ==> serializable(#[trigger] self@[i])) <==> r
                is Ok,
            r matches Ok(v) ==> v.deep_view() == self@.map_values(
                |m: RecordModel| spec_serialize(m),
            ),
            r is Err ==> r == Err::<Vec<String>, TodoError>(TodoError::Format),
    {
        let mut out: Vec<String> = Vec::new();
        let mut i: usize = 0;
        while i < self.items.len()
            invariant
                0 <= i <= self.items.len(),
                forall|k: int| 0 <= k < i ==> serializable(#[trigger] self@[k]),
                out.deep_view() == self@.take(i as int).map_values(
                    |m: RecordModel| spec_serialize(m),
                ),
            decreases self.items.len() - i,
        {
            let ghost dv = out.deep_view();
            match self.items[i].render_line() {
                Ok(s) => {
                    out.push(s);
                    proof {
                        assert(self.items[i as int]@ == self@[i as int]);
                        assert(out.deep_view() =~= dv.push(spec_serialize(self@[i as int])));
                        assert(self@.take(i + 1).map_values(|m: RecordModel| spec_serialize(m))
                            =~= dv.push(spec_serialize(self@[i as int])));
                    }
                },
                Err(e) => {
                    proof {
                        assert(self.items[i as int]@ == self@[i as int]);
                        assert(!serializable(self@[i as int]));
                    }
                    return Err(e);
                },
            }
            i += 1;
        }
        proof {
            assert(self@.take(self.items.len() as int) =~= self@);
        }
        Ok(out)
    }
}

} // verus!

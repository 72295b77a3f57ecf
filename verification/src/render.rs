//! Rendering of the list for display: one line per task, with a
//! checkbox marker, the id and the title, or a single placeholder
//! line when the list is empty.

use vstd::prelude::*;
use vstd::string::StringExecFns;
use crate::codec::dec_rep;
use crate::codec::fmt_usize;
use crate::task::TaskView;
use crate::task::TodoItem;
use crate::task::TodoList;

verus! {

/// The checkbox marker: `[x]` for a completed task, ` [ ] ` otherwise.
pub open spec fn check_mark(completed: bool) -> Seq<char> {
    if completed {
        ("[x]")@
    } else {
        (" [ ] ")@
    }
}

/// The display line for one task, indentation included.
pub open spec fn line_of(t: TaskView) -> Seq<char> {
    ("  ")@ + check_mark(t.completed) + (" ")@ + dec_rep(t.id) + (" - ")@ + t.title
}

/// The placeholder line shown for an empty list.
pub open spec fn empty_line() -> Seq<char> {
    ("  (비어 있음)")@
}

/// The display lines of a run of tasks, one per task, in order.
pub open spec fn task_lines(s: Seq<TaskView>) -> Seq<Seq<char>> {
    s.map_values(|t: TaskView| line_of(t))
}

/// The character sequences of a vector of lines.
pub open spec fn lines_view(v: Seq<String>) -> Seq<Seq<char>> {
    v.map_values(|l: String| l@)
}

/// What listing prints: the placeholder alone for an empty list, else
/// exactly one line per task, in order.
pub open spec fn render_spec(s: Seq<TaskView>) -> Seq<Seq<char>> {
    if s.len() == 0 {
        seq![empty_line()]
    } else {
        task_lines(s)
    }
}

impl TodoItem {
    /// The line the listing prints for the task.
    pub fn render_line(&self) -> (r: String)
        ensures
            r@ == line_of(self@),
    {
        let mut out = String::new();
        out.append("  ");
        if self.completed {
            out.append("[x]");
        } else {
            out.append(" [ ] ");
        }
        out.append(" ");
        let num = fmt_usize(self.id);
        out.append(num.as_str());
        out.append(" - ");
        out.append(self.title.as_str());
        proof {
            assert(out@ =~= line_of(self@));
        }
        out
    }
}

impl TodoList {
    /// The lines the listing prints: the placeholder alone when the
    /// list is empty, else one line per task in display order.
    pub fn render_lines(&self) -> (r: Vec<String>)
        ensures
            lines_view(r@) == render_spec(self@),
            self@.len() == 0 ==> r@.len() == 1 && r@[0]@ == empty_line(),
            self@.len() > 0 ==> r@.len() == self@.len(),
    {
        let mut out: Vec<String> = Vec::new();
        if self.items.len() == 0 {
            let mut l = String::new();
            l.append("  (비어 있음)");
            out.push(l);
            proof {
                assert(l@ =~= empty_line());
                assert(lines_view(out@) =~= seq![empty_line()]);
            }
        } else {
            let m = self.items.len();
            let mut i: usize = 0;
            while i < m
                invariant
                    m == self@.len(),
                    m == self.items@.len(),
                    m > 0,
                    0 <= i <= m,
                    out@.len() == i,
                    lines_view(out@) == task_lines(self@.subrange(0, i as int)),
                decreases m - i,
            {
                let ghost out_pre = out@;
                let line = self.items[i].render_line();
                out.push(line);
                proof {
                    assert(self@[i as int] == self.items@[i as int]@);
                    assert(lines_view(out@) =~= task_lines(self@.subrange(0, i + 1 as int))) by {
                        assert forall|q: int| 0 <= q < out@.len() implies lines_view(out@)[q]
                            == task_lines(self@.subrange(0, i + 1 as int))[q] by {
                            if q < i as int {
                                assert(out@[q] == out_pre[q]);
                                assert(lines_view(out_pre)[q] == task_lines(
                                    self@.subrange(0, i as int),
                                )[q]);
                                assert(self@.subrange(0, i + 1 as int)[q] == self@.subrange(
                                    0,
                                    i as int,
                                )[q]);
                            } else {
                                assert(out@[q] == line);
                                assert(self@.subrange(0, i + 1 as int)[q] == self@[i as int]);
                            }
                        }
                    }
                }
                i += 1;
            }
            proof {
                assert(self@.subrange(0, m as int) =~= self@);
            }
        }
        out
    }
}

} // verus!

//! The command layer: one instruction is applied to the list, the
//! outcome says whether the list must be persisted and which lines to
//! print.

use vstd::prelude::*;
use vstd::string::StringExecFns;
use crate::codec::dec_rep;
use crate::codec::fmt_usize;
use crate::render::lines_view;
use crate::render::render_spec;
use crate::task::TaskView;
use crate::task::TodoList;
use crate::task::first_match_at;
use crate::task::has_id;
use crate::task::set_done;

verus! {

/// One user instruction.
pub enum Command {
    Add { title: String },
    List,
    Complete { id: usize },
    Delete { id: usize },
}

/// What one instruction produced: the lines to print, and whether the
/// list changed and must be written back.
pub struct Outcome {
    pub lines: Vec<String>,
    pub save_needed: bool,
}

/// The confirmation printed after adding a task.
pub open spec fn msg_added(id: nat, title: Seq<char>) -> Seq<char> {
    ("할 일이 추가되었습니다: [")@ + dec_rep(id) + ("] ")@ + title
}

/// The confirmation printed after completing a task.
pub open spec fn msg_completed() -> Seq<char> {
    ("할 일이 완료되었습니다")@
}

/// The confirmation printed after deleting a task.
pub open spec fn msg_deleted(id: nat) -> Seq<char> {
    ("삭제되었습니다: ID ")@ + dec_rep(id)
}

/// The message printed when no task has the requested id.
pub open spec fn msg_not_found(id: nat) -> Seq<char> {
    ("ID ")@ + dec_rep(id) + ("번 할 일을 찾을 수 없습니다.")@
}

/// Applies one instruction to the list: exactly one store operation,
/// a save exactly when the list changed, and the printed lines.
pub fn execute(list: &mut TodoList, cmd: Command) -> (o: Outcome)
    requires
        old(list)@.len() < usize::MAX,
    ensures
        match cmd {
            Command::Add { title } => {
                &&& final(list)@ == old(list)@.push(
                    TaskView {
                        id: (old(list)@.len() + 1) as nat,
                        title: title@,
                        completed: false,
                    },
                )
                &&& o.save_needed
                &&& o.lines@.len() == 1
                &&& o.lines@[0]@ == msg_added((old(list)@.len() + 1) as nat, title@)
            },
            Command::List => {
                &&& final(list)@ == old(list)@
                &&& !o.save_needed
                &&& lines_view(o.lines@) == render_spec(old(list)@)
            },
            Command::Complete { id } => {
                &&& o.save_needed == has_id(old(list)@, id as nat)
                &&& (has_id(old(list)@, id as nat) ==> exists|i: int|
                    #[trigger] first_match_at(old(list)@, id as nat, i) && final(list)@ == old(
                        list,
                    )@.update(i, set_done(old(list)@[i])))
                &&& (!has_id(old(list)@, id as nat) ==> final(list)@ == old(list)@)
                &&& o.lines@.len() == 1
                &&& o.lines@[0]@ == if has_id(old(list)@, id as nat) {
                    msg_completed()
                } else {
                    msg_not_found(id as nat)
                }
            },
            Command::Delete { id } => {
                &&& o.save_needed == has_id(old(list)@, id as nat)
                &&& (has_id(old(list)@, id as nat) ==> exists|i: int|
                    #[trigger] first_match_at(old(list)@, id as nat, i) && final(list)@ == old(
                        list,
                    )@.remove(i))
                &&& (!has_id(old(list)@, id as nat) ==> final(list)@ == old(list)@)
                &&& o.lines@.len() == 1
                &&& o.lines@[0]@ == if has_id(old(list)@, id as nat) {
                    msg_deleted(id as nat)
                } else {
                    msg_not_found(id as nat)
                }
            },
        },
{
    match cmd {
        Command::Add { title } => {
            let ghost title_view = title@;
            let t = list.add(title);
            let mut line = String::new();
            line.append("할 일이 추가되었습니다: [");
            let num = fmt_usize(t.id);
            line.append(num.as_str());
            line.append("] ");
            line.append(t.title.as_str());
            proof {
                assert(line@ =~= msg_added(t.id as nat, title_view));
            }
            let mut lines: Vec<String> = Vec::new();
            lines.push(line);
            Outcome { lines, save_needed: true }
        },
        Command::List => {
            let lines = list.render_lines();
            Outcome { lines, save_needed: false }
        },
        Command::Complete { id } => {
            let found = list.complete(id);
            let mut line = String::new();
            if found {
                line.append("할 일이 완료되었습니다");
                proof {
                    assert(line@ =~= msg_completed());
                }
            } else {
                line.append("ID ");
                let num = fmt_usize(id);
                line.append(num.as_str());
                line.append("번 할 일을 찾을 수 없습니다.");
                proof {
                    assert(line@ =~= msg_not_found(id as nat));
                }
            }
            let mut lines: Vec<String> = Vec::new();
            lines.push(line);
            Outcome { lines, save_needed: found }
        },
        Command::Delete { id } => {
            let found = list.remove(id);
            let mut line = String::new();
            if found {
                line.append("삭제되었습니다: ID ");
                let num = fmt_usize(id);
                line.append(num.as_str());
                proof {
                    assert(line@ =~= msg_deleted(id as nat));
                }
            } else {
                line.append("ID ");
                let num = fmt_usize(id);
                line.append(num.as_str());
                line.append("번 할 일을 찾을 수 없습니다.");
                proof {
                    assert(line@ =~= msg_not_found(id as nat));
                }
            }
            let mut lines: Vec<String> = Vec::new();
            lines.push(line);
            Outcome { lines, save_needed: found }
        },
    }
}

} // verus!

//! The persistence format: a canonical textual encoding of the task
//! list, `{"items":[{"id":1,"title":"a","completed":false}]}`, with a
//! verified encoder and parser. The parser accepts exactly the
//! encoder's output; anything else is a parse error.

use vstd::prelude::*;
use vstd::string::StrSliceExecFns;
use vstd::string::StringExecFns;
use crate::task::TaskView;
use crate::task::TodoItem;
use crate::task::TodoList;

verus! {

/// The persistence file's content is not in the format `save_string`
/// writes.
#[derive(Debug)]
pub struct ParseError;

// ---------------------------------------------------------------
// Decimal digits
// ---------------------------------------------------------------

/// `c` is a decimal digit.
pub open spec fn is_digit(c: char) -> bool {
    ||| c == '0'
    ||| c == '1'
    ||| c == '2'
    ||| c == '3'
    ||| c == '4'
    ||| c == '5'
    ||| c == '6'
    ||| c == '7'
    ||| c == '8'
    ||| c == '9'
}

/// The digit character for a value below ten.
pub open spec fn digit_char(d: nat) -> char {
    if d == 0 {
        '0'
    } else if d == 1 {
        '1'
    } else if d == 2 {
        '2'
    } else if d == 3 {
        '3'
    } else if d == 4 {
        '4'
    } else if d == 5 {
        '5'
    } else if d == 6 {
        '6'
    } else if d == 7 {
        '7'
    } else if d == 8 {
        '8'
    } else {
        '9'
    }
}

/// The value of a digit character.
pub open spec fn digit_val(c: char) -> nat {
    if c == '0' {
        0
    } else if c == '1' {
        1
    } else if c == '2' {
        2
    } else if c == '3' {
        3
    } else if c == '4' {
        4
    } else if c == '5' {
        5
    } else if c == '6' {
        6
    } else if c == '7' {
        7
    } else if c == '8' {
        8
    } else {
        9
    }
}

/// The usual decimal representation of `n`, most significant digit
/// first, without leading zeros (except for `n == 0` itself).
pub open spec fn dec_rep(n: nat) -> Seq<char>
    decreases n,
{
    if n < 10 {
        seq![digit_char(n)]
    } else {
        dec_rep(n / 10).push(digit_char(n % 10))
    }
}

/// The numeric value of a sequence of digit characters.
pub open spec fn val_of(d: Seq<char>) -> nat
    decreases d.len(),
{
    if d.len() == 0 {
        0
    } else {
        val_of(d.drop_last()) * 10 + digit_val(d.last())
    }
}

/// Every character of `d` is a decimal digit.
pub open spec fn all_digits(d: Seq<char>) -> bool {
    forall|i: int| 0 <= i < d.len() ==> is_digit(#[trigger] d[i])
}

/// The decimal representation is non-empty, consists of digits, and
/// evaluates back to the number it was made from.
proof fn lemma_dec_rep(n: nat)
    ensures
        dec_rep(n).len() >= 1,
        all_digits(dec_rep(n)),
        val_of(dec_rep(n)) == n,
    decreases n,
{
    if n < 10 {
        assert(dec_rep(n) =~= seq![digit_char(n)]);
        assert(dec_rep(n).drop_last() =~= Seq::<char>::empty());
        assert(val_of(Seq::<char>::empty()) == 0);
        assert(dec_rep(n).last() == digit_char(n));
        assert(val_of(dec_rep(n)) == val_of(Seq::<char>::empty()) * 10 + digit_val(
            digit_char(n),
        ));
        assert(digit_val(digit_char(n)) == n);
    } else {
        lemma_dec_rep(n / 10);
        assert(dec_rep(n) == dec_rep(n / 10).push(digit_char(n % 10)));
        assert(dec_rep(n).drop_last() =~= dec_rep(n / 10));
        assert(dec_rep(n).last() == digit_char(n % 10));
        assert(val_of(dec_rep(n)) == (n / 10) * 10 + n % 10);
    }
}

// ---------------------------------------------------------------
// Title escaping
// ---------------------------------------------------------------

/// How one title character appears inside the quoted form: quotes and
/// backslashes get a backslash in front, everything else is itself.
pub open spec fn esc_char(c: char) -> Seq<char> {
    if c == '"' || c == '\\' {
        seq!['\\', c]
    } else {
        seq![c]
    }
}

/// The escaped form of a whole title.
pub open spec fn esc(s: Seq<char>) -> Seq<char>
    decreases s.len(),
{
    if s.len() == 0 {
        Seq::empty()
    } else {
        esc_char(s[0]) + esc(s.drop_first())
    }
}

/// Appending a character to a title appends its escaped form.
proof fn lemma_esc_push(s: Seq<char>, c: char)
    ensures
        esc(s.push(c)) == esc(s) + esc_char(c),
    decreases s.len(),
{
    if s.len() == 0 {
        assert(s.push(c)[0] == c);
        assert(s.push(c).drop_first() =~= Seq::<char>::empty());
        assert(esc(Seq::<char>::empty()) == Seq::<char>::empty());
        assert(esc(s.push(c)) == esc_char(c) + esc(Seq::<char>::empty()));
        assert(s =~= Seq::<char>::empty());
        assert(esc(s.push(c)) =~= esc(s) + esc_char(c));
    } else {
        lemma_esc_push(s.drop_first(), c);
        assert(s.push(c).drop_first() =~= s.drop_first().push(c));
        assert(s.push(c)[0] == s[0]);
        assert(esc(s.push(c)) == esc_char(s[0]) + esc(s.drop_first().push(c)));
        assert(esc(s.push(c)) =~= esc(s) + esc_char(c));
    }
}

// ---------------------------------------------------------------
// The fixed tokens of the format
// ---------------------------------------------------------------

/// `{"items":[`
pub open spec fn tok_head() -> Seq<char> {
    seq!['{', '"', 'i', 't', 'e', 'm', 's', '"', ':', '[']
}

/// `]}`
pub open spec fn tok_tail() -> Seq<char> {
    seq![']', '}']
}

/// `{"id":`
pub open spec fn tok_id() -> Seq<char> {
    seq!['{', '"', 'i', 'd', '"', ':']
}

/// `,"title":"` (includes the opening quote of the title)
pub open spec fn tok_title() -> Seq<char> {
    seq![',', '"', 't', 'i', 't', 'l', 'e', '"', ':', '"']
}

/// `,"completed":` (the title's closing quote precedes it)
pub open spec fn tok_comp() -> Seq<char> {
    seq![',', '"', 'c', 'o', 'm', 'p', 'l', 'e', 't', 'e', 'd', '"', ':']
}

/// `true`
pub open spec fn tok_true() -> Seq<char> {
    seq!['t', 'r', 'u', 'e']
}

/// `false`
pub open spec fn tok_false() -> Seq<char> {
    seq!['f', 'a', 'l', 's', 'e']
}

// ---------------------------------------------------------------
// Encoding
// ---------------------------------------------------------------

/// The encoding of one task.
pub open spec fn enc_task(t: TaskView) -> Seq<char> {
    tok_id() + dec_rep(t.id) + tok_title() + esc(t.title) + seq!['"'] + tok_comp() + (if t.completed {
        tok_true()
    } else {
        tok_false()
    }) + seq!['}']
}

/// The encodings of the tasks, separated by commas.
pub open spec fn enc_tasks(ts: Seq<TaskView>) -> Seq<char>
    decreases ts.len(),
{
    if ts.len() == 0 {
        Seq::empty()
    } else if ts.len() == 1 {
        enc_task(ts[0])
    } else {
        enc_task(ts[0]) + seq![','] + enc_tasks(ts.drop_first())
    }
}

/// The encoding of the whole list.
pub open spec fn enc_list(ts: Seq<TaskView>) -> Seq<char> {
    tok_head() + enc_tasks(ts) + tok_tail()
}

/// Appending a task appends a comma (unless the list was empty) and
/// the task's encoding.
proof fn lemma_enc_tasks_push(ts: Seq<TaskView>, t: TaskView)
    ensures
        ts.len() == 0 ==> enc_tasks(ts.push(t)) == enc_task(t),
        ts.len() > 0 ==> enc_tasks(ts.push(t)) == enc_tasks(ts) + seq![','] + enc_task(t),
    decreases ts.len(),
{
    if ts.len() == 0 {
        assert(ts.push(t).len() == 1);
        assert(ts.push(t)[0] == t);
        assert(enc_tasks(ts.push(t)) == enc_task(t));
    } else if ts.len() == 1 {
        assert(ts.push(t)[0] == ts[0]);
        assert(ts.push(t).drop_first() =~= seq![t]);
        assert(enc_tasks(seq![t]) == enc_task(t));
        assert(enc_tasks(ts.push(t)) == enc_task(ts[0]) + seq![','] + enc_task(t));
        assert(enc_tasks(ts) == enc_task(ts[0]));
    } else {
        lemma_enc_tasks_push(ts.drop_first(), t);
        assert(ts.push(t).drop_first() =~= ts.drop_first().push(t));
        assert(ts.push(t)[0] == ts[0]);
        assert(enc_tasks(ts.push(t)) == enc_task(ts[0]) + seq![','] + enc_tasks(
            ts.drop_first().push(t),
        ));
        assert(enc_tasks(ts.push(t)) =~= enc_tasks(ts) + seq![','] + enc_task(t));
    }
}

// ---------------------------------------------------------------
// Parsing (specification)
// ---------------------------------------------------------------

/// The fixed text `lit` occurs in `s` at position `i`.
pub open spec fn lit_at(s: Seq<char>, i: int, lit: Seq<char>) -> bool {
    &&& 0 <= i
    &&& i + lit.len() <= s.len()
    &&& s.subrange(i, i + lit.len()) == lit
}

/// The end of the run of digit characters starting at `i`.
pub open spec fn digits_end(s: Seq<char>, i: int) -> int
    decreases s.len() - i,
{
    if 0 <= i < s.len() && is_digit(s[i]) {
        digits_end(s, i + 1)
    } else {
        i
    }
}

/// Parses a number at `i`: the longest run of digits, which must be
/// non-empty and have a value that fits in `usize`.
pub open spec fn sp_num(s: Seq<char>, i: int) -> Option<(nat, int)> {
    let j = digits_end(s, i);
    if j == i {
        None
    } else {
        let v = val_of(s.subrange(i, j));
        if v <= usize::MAX as nat {
            Some((v, j))
        } else {
            None
        }
    }
}

/// Parses the rest of a quoted title at `i`, the opening quote already
/// consumed: characters up to the next unescaped quote, undoing the
/// escaping; yields the title and the position after the closing quote.
pub open spec fn sp_str(s: Seq<char>, i: int) -> Option<(Seq<char>, int)>
    decreases s.len() - i,
{
    if !(0 <= i < s.len()) {
        None
    } else if s[i] == '"' {
        Some((Seq::empty(), i + 1))
    } else if s[i] == '\\' {
        if i + 1 < s.len() && (s[i + 1] == '"' || s[i + 1] == '\\') {
            match sp_str(s, i + 2) {
                Some((t, j)) => Some((seq![s[i + 1]] + t, j)),
                None => None,
            }
        } else {
            None
        }
    } else {
        match sp_str(s, i + 1) {
            Some((t, j)) => Some((seq![s[i]] + t, j)),
            None => None,
        }
    }
}

/// Parses `true` or `false` at `i`.
pub open spec fn sp_bool(s: Seq<char>, i: int) -> Option<(bool, int)> {
    if lit_at(s, i, tok_true()) {
        Some((true, i + tok_true().len()))
    } else if lit_at(s, i, tok_false()) {
        Some((false, i + tok_false().len()))
    } else {
        None
    }
}

/// Parses one task object at `i`.
pub open spec fn sp_task(s: Seq<char>, i: int) -> Option<(TaskView, int)> {
    if !lit_at(s, i, tok_id()) {
        None
    } else {
        match sp_num(s, i + tok_id().len()) {
            None => None,
            Some((id, j)) => if !lit_at(s, j, tok_title()) {
                None
            } else {
                match sp_str(s, j + tok_title().len()) {
                    None => None,
                    Some((title, k)) => if !lit_at(s, k, tok_comp()) {
                        None
                    } else {
                        match sp_bool(s, k + tok_comp().len()) {
                            None => None,
                            Some((c, m)) => if m < s.len() && s[m] == '}' {
                                Some((TaskView { id, title, completed: c }, m + 1))
                            } else {
                                None
                            },
                        }
                    },
                }
            },
        }
    }
}

/// Parses one or more comma-separated task objects starting at `i`.
pub open spec fn sp_tasks(s: Seq<char>, i: int) -> Option<(Seq<TaskView>, int)>
    decreases s.len() - i,
{
    match sp_task(s, i) {
        None => None,
        Some((t, j)) => if j < s.len() && s[j] == ',' {
            if i < j + 1 && j + 1 <= s.len() {
                match sp_tasks(s, j + 1) {
                    None => None,
                    Some((ts, k)) => Some((seq![t] + ts, k)),
                }
            } else {
                None
            }
        } else {
            Some((seq![t], j))
        },
    }
}

/// Parses a whole persisted list; `None` is a parse error.
pub open spec fn sp_list(s: Seq<char>) -> Option<Seq<TaskView>> {
    if !lit_at(s, 0, tok_head()) {
        None
    } else {
        let i = tok_head().len() as int;
        if i < s.len() && s[i] == ']' {
            if s.len() == i + 2 && s[i + 1] == '}' {
                Some(Seq::empty())
            } else {
                None
            }
        } else {
            match sp_tasks(s, i) {
                None => None,
                Some((ts, j)) => if j + 2 == s.len() && s[j] == ']' && s[j + 1] == '}' {
                    Some(ts)
                } else {
                    None
                },
            }
        }
    }
}

// ---------------------------------------------------------------
// The parser accepts what the encoder produced
// ---------------------------------------------------------------

/// A segment of `s` that matches a concatenation matches it piecewise.
proof fn lemma_split_at(s: Seq<char>, i: int, a: Seq<char>, b: Seq<char>)
    requires
        0 <= i,
        i + a.len() + b.len() <= s.len(),
        s.subrange(i, i + a.len() + b.len()) == a + b,
    ensures
        s.subrange(i, i + a.len()) == a,
        s.subrange(i + a.len(), i + a.len() + b.len()) == b,
{
    assert(s.subrange(i, i + a.len()) =~= a) by {
        assert forall|k: int| 0 <= k < a.len() implies s.subrange(i, i + a.len())[k] == a[k] by {
            assert(s.subrange(i, i + a.len() + b.len())[k] == (a + b)[k]);
        }
    }
    assert(s.subrange(i + a.len(), i + a.len() + b.len()) =~= b) by {
        assert forall|k: int| 0 <= k < b.len() implies s.subrange(
            i + a.len(),
            i + a.len() + b.len(),
        )[k] == b[k] by {
            assert(s.subrange(i + a.len(), i + a.len() + b.len())[k] == s[i + a.len() + k]);
            assert(s.subrange(i, i + a.len() + b.len())[a.len() + k] == s[i + a.len() + k]);
            assert((a + b)[a.len() + k] == b[k]);
        }
    }
}

/// A run of digits at `i`, followed by a non-digit, ends exactly where
/// the run's text ends.
proof fn lemma_digits_end_of(s: Seq<char>, i: int, d: Seq<char>)
    requires
        0 <= i,
        i + d.len() <= s.len(),
        s.subrange(i, i + d.len()) == d,
        all_digits(d),
        i + d.len() == s.len() || !is_digit(s[i + d.len()]),
    ensures
        digits_end(s, i) == i + d.len(),
    decreases d.len(),
{
    if d.len() == 0 {
    } else {
        assert(s.subrange(i, i + d.len())[0] == d[0]);
        assert(is_digit(s[i]));
        assert(s.subrange(i + 1, i + d.len()) =~= d.drop_first()) by {
            assert forall|k: int| 0 <= k < d.len() - 1 implies s.subrange(i + 1, i + d.len())[k]
                == d.drop_first()[k] by {
                assert(s.subrange(i, i + d.len())[k + 1] == d[k + 1]);
            }
        }
        assert(all_digits(d.drop_first())) by {
            assert forall|k: int| 0 <= k < d.drop_first().len() implies is_digit(
                #[trigger] d.drop_first()[k],
            ) by {
                assert(d.drop_first()[k] == d[k + 1]);
            }
        }
        lemma_digits_end_of(s, i + 1, d.drop_first());
    }
}

/// The decimal text of `n` at `i`, followed by a non-digit, parses as
/// the number `n`.
proof fn lemma_sp_num_complete(s: Seq<char>, i: int, n: nat)
    requires
        n <= usize::MAX as nat,
        0 <= i,
        i + dec_rep(n).len() < s.len(),
        s.subrange(i, i + dec_rep(n).len()) == dec_rep(n),
        !is_digit(s[i + dec_rep(n).len()]),
    ensures
        sp_num(s, i) == Some((n, i + dec_rep(n).len())),
{
    lemma_dec_rep(n);
    lemma_digits_end_of(s, i, dec_rep(n));
    assert(val_of(s.subrange(i, i + dec_rep(n).len())) == n);
}

/// The escaped text of a title at `i`, followed by the closing quote,
/// parses back to the title.
proof fn lemma_sp_str_complete(s: Seq<char>, i: int, t: Seq<char>)
    requires
        0 <= i,
        i + esc(t).len() + 1 <= s.len(),
        s.subrange(i, i + esc(t).len()) == esc(t),
        s[i + esc(t).len()] == '"',
    ensures
        sp_str(s, i) == Some((t, i + esc(t).len() + 1)),
    decreases t.len(),
{
    if t.len() == 0 {
        assert(esc(t) == Seq::<char>::empty());
        assert(t =~= Seq::<char>::empty());
    } else {
        let c = t[0];
        let t1 = t.drop_first();
        assert(esc(t) == esc_char(c) + esc(t1));
        if c == '"' || c == '\\' {
            assert(esc_char(c) == seq!['\\', c]);
            assert(s.subrange(i, i + esc(t).len())[0] == esc(t)[0]);
            assert(s[i] == '\\');
            assert(s.subrange(i, i + esc(t).len())[1] == esc(t)[1]);
            assert(s[i + 1] == c);
            assert(s.subrange(i + 2, i + 2 + esc(t1).len()) =~= esc(t1)) by {
                assert forall|k: int| 0 <= k < esc(t1).len() implies s.subrange(
                    i + 2,
                    i + 2 + esc(t1).len(),
                )[k] == esc(t1)[k] by {
                    assert(s.subrange(i, i + esc(t).len())[k + 2] == esc(t)[k + 2]);
                    assert(esc(t)[k + 2] == esc(t1)[k]);
                }
            }
            assert(s[i + 2 + esc(t1).len()] == '"');
            lemma_sp_str_complete(s, i + 2, t1);
            assert(seq![s[i + 1]] + t1 =~= t);
        } else {
            assert(esc_char(c) == seq![c]);
            assert(s.subrange(i, i + esc(t).len())[0] == esc(t)[0]);
            assert(s[i] == c);
            assert(s.subrange(i + 1, i + 1 + esc(t1).len()) =~= esc(t1)) by {
                assert forall|k: int| 0 <= k < esc(t1).len() implies s.subrange(
                    i + 1,
                    i + 1 + esc(t1).len(),
                )[k] == esc(t1)[k] by {
                    assert(s.subrange(i, i + esc(t).len())[k + 1] == esc(t)[k + 1]);
                    assert(esc(t)[k + 1] == esc(t1)[k]);
                }
            }
            assert(s[i + 1 + esc(t1).len()] == '"');
            lemma_sp_str_complete(s, i + 1, t1);
            assert(seq![s[i]] + t1 =~= t);
        }
    }
}

/// The encoding of one task at `i` parses back to that task.
proof fn lemma_sp_task_complete(s: Seq<char>, i: int, t: TaskView)
    requires
        t.id <= usize::MAX as nat,
        0 <= i,
        i + enc_task(t).len() <= s.len(),
        s.subrange(i, i + enc_task(t).len()) == enc_task(t),
    ensures
        sp_task(s, i) == Some((t, i + enc_task(t).len())),
{
    let d = dec_rep(t.id);
    let e = esc(t.title);
    let b = if t.completed {
        tok_true()
    } else {
        tok_false()
    };
    let seg_id = tok_id() + d;
    let seg_ttok = seg_id + tok_title();
    let seg_title = seg_ttok + e;
    let seg_quote = seg_title + seq!['"'];
    let seg_ctok = seg_quote + tok_comp();
    let seg_flag = seg_ctok + b;
    assert(enc_task(t) == seg_flag + seq!['}']);
    let o1 = i + tok_id().len();
    let o2 = o1 + d.len();
    let o3 = o2 + tok_title().len();
    let o4 = o3 + e.len();
    let o5 = o4 + 1;
    let o6 = o5 + tok_comp().len();
    let o7 = o6 + b.len();
    let o8 = o7 + 1;
    lemma_split_at(s, i, seg_flag, seq!['}']);
    lemma_split_at(s, i, seg_ctok, b);
    lemma_split_at(s, i, seg_quote, tok_comp());
    lemma_split_at(s, i, seg_title, seq!['"']);
    lemma_split_at(s, i, seg_ttok, e);
    lemma_split_at(s, i, seg_id, tok_title());
    lemma_split_at(s, i, tok_id(), d);
    // the opening token
    assert(lit_at(s, i, tok_id()));
    // the id: its digits are followed by the comma of `tok_title`
    assert(s.subrange(o2, o3)[0] == tok_title()[0]);
    assert(s[o2] == ',');
    lemma_sp_num_complete(s, o1, t.id);
    // the title token
    assert(lit_at(s, o2, tok_title()));
    // the escaped title, closed by the quote segment
    assert(s.subrange(o4, o4 + 1)[0] == '"');
    assert(s[o4] == '"');
    lemma_sp_str_complete(s, o3, t.title);
    // the completed token
    assert(lit_at(s, o5, tok_comp()));
    // the flag
    if t.completed {
        assert(lit_at(s, o6, tok_true()));
    } else {
        assert(lit_at(s, o6, tok_false()));
        assert(s.subrange(o6, o7)[0] == tok_false()[0]);
        assert(s[o6] == 'f');
        assert(!lit_at(s, o6, tok_true())) by {
            if lit_at(s, o6, tok_true()) {
                assert(s.subrange(o6, o6 + tok_true().len())[0] == tok_true()[0]);
                assert(s[o6] == 't');
            }
        }
    }
    assert(sp_bool(s, o6) == Some((t.completed, o7)));
    // the closing brace
    assert(s.subrange(o7, o8)[0] == '}');
    assert(s[o7] == '}');
    assert(o7 < s.len());
    assert(TaskView { id: t.id, title: t.title, completed: t.completed } =~= t);
    assert(sp_task(s, i) == Some((t, o8)));
}

/// The encodings of one or more tasks at `i`, followed by `]`, parse
/// back to those tasks.
proof fn lemma_sp_tasks_complete(s: Seq<char>, i: int, ts: Seq<TaskView>)
    requires
        ts.len() >= 1,
        forall|k: int| 0 <= k < ts.len() ==> (#[trigger] ts[k].id) <= usize::MAX as nat,
        0 <= i,
        i + enc_tasks(ts).len() < s.len(),
        s.subrange(i, i + enc_tasks(ts).len()) == enc_tasks(ts),
        s[i + enc_tasks(ts).len()] == ']',
    ensures
        sp_tasks(s, i) == Some((ts, i + enc_tasks(ts).len())),
    decreases ts.len(),
{
    if ts.len() == 1 {
        assert(enc_tasks(ts) == enc_task(ts[0]));
        lemma_sp_task_complete(s, i, ts[0]);
        let j = i + enc_task(ts[0]).len();
        assert(s[j] == ']');
        assert(seq![ts[0]] =~= ts);
    } else {
        let ts1 = ts.drop_first();
        assert(enc_tasks(ts) == enc_task(ts[0]) + seq![','] + enc_tasks(ts1));
        lemma_split_at(s, i, enc_task(ts[0]) + seq![','], enc_tasks(ts1));
        lemma_split_at(s, i, enc_task(ts[0]), seq![',']);
        lemma_sp_task_complete(s, i, ts[0]);
        let j = i + enc_task(ts[0]).len();
        assert(s.subrange(j, j + 1)[0] == ',');
        assert(s[j] == ',');
        assert(forall|k: int| 0 <= k < ts1.len() ==> (#[trigger] ts1[k].id) <= usize::MAX as nat)
            by {
            assert forall|k: int| 0 <= k < ts1.len() implies (#[trigger] ts1[k].id)
                <= usize::MAX as nat by {
                assert(ts1[k] == ts[k + 1]);
            }
        }
        lemma_sp_tasks_complete(s, j + 1, ts1);
        assert(seq![ts[0]] + ts1 =~= ts);
    }
}

/// The encoder's output always parses back to exactly the list that
/// was encoded: saving and then loading returns the same tasks in the
/// same order. The ids of a real list are `usize` values, which is all
/// the bound asks.
pub proof fn lemma_round_trip(ts: Seq<TaskView>)
    requires
        forall|k: int| 0 <= k < ts.len() ==> (#[trigger] ts[k].id) <= usize::MAX as nat,
    ensures
        sp_list(enc_list(ts)) == Some(ts),
{
    let s = enc_list(ts);
    assert(s == tok_head() + enc_tasks(ts) + tok_tail());
    assert(s.subrange(0, s.len() as int) =~= s);
    lemma_split_at(s, 0, tok_head() + enc_tasks(ts), tok_tail());
    lemma_split_at(s, 0, tok_head(), enc_tasks(ts));
    assert(lit_at(s, 0, tok_head()));
    let i = tok_head().len() as int;
    let j = i + enc_tasks(ts).len();
    assert(s.subrange(j, j + 2)[0] == ']');
    assert(s.subrange(j, j + 2)[1] == '}');
    assert(s[j] == ']');
    assert(s[j + 1] == '}');
    if ts.len() == 0 {
        assert(enc_tasks(ts) == Seq::<char>::empty());
        assert(s.len() == i + 2);
        assert(ts =~= Seq::<TaskView>::empty());
        assert(sp_list(s) == Some(ts));
    } else {
        assert(s.subrange(i, j)[0] == enc_tasks(ts)[0]);
        assert(enc_task(ts[0])[0] == '{') by {
            let d = dec_rep(ts[0].id);
            let seg_id = tok_id() + d;
            let seg_ttok = seg_id + tok_title();
            let seg_title = seg_ttok + esc(ts[0].title);
            let seg_quote = seg_title + seq!['"'];
            let seg_ctok = seg_quote + tok_comp();
            let seg_flag = seg_ctok + (if ts[0].completed {
                tok_true()
            } else {
                tok_false()
            });
            assert(enc_task(ts[0]) == seg_flag + seq!['}']);
            assert((seg_flag + seq!['}'])[0] == seg_flag[0]);
            assert(seg_flag[0] == seg_ctok[0]);
            assert(seg_ctok[0] == seg_quote[0]);
            assert(seg_quote[0] == seg_title[0]);
            assert(seg_title[0] == seg_ttok[0]);
            assert(seg_ttok[0] == seg_id[0]);
            assert(seg_id[0] == tok_id()[0]);
        }
        assert(enc_tasks(ts)[0] == enc_task(ts[0])[0]);
        assert(s[i] == '{');
        lemma_sp_tasks_complete(s, i, ts);
        assert(s.len() == j + 2);
        assert(sp_list(s) == Some(ts));
    }
}

/// Every id in a real list's view fits in `usize`, being one.
pub proof fn lemma_view_ids_bounded(l: TodoList)
    ensures
        forall|k: int| 0 <= k < l@.len() ==> (#[trigger] l@[k].id) <= usize::MAX as nat,
{
    assert forall|k: int| 0 <= k < l@.len() implies (#[trigger] l@[k].id)
        <= usize::MAX as nat by {
        assert(l@[k] == l.items@[k]@);
    }
}

/// Saving a list and loading the text back returns the same tasks, in
/// the same order.
pub proof fn lemma_save_load(l: TodoList)
    ensures
        sp_list(enc_list(l@)) == Some(l@),
{
    lemma_view_ids_bounded(l);
    lemma_round_trip(l@);
}

// ---------------------------------------------------------------
// Encoding (executable)
// ---------------------------------------------------------------

/// Relies on `String::push`: appends exactly the one character.
#[verifier::external_body]
fn push_char(s: &mut String, c: char)
    ensures
        final(s)@ == old(s)@.push(c),
{
    s.push(c);
}

/// The digit character for a value below ten.
fn digit_to_char(d: usize) -> (c: char)
    requires
        d < 10,
    ensures
        c == digit_char(d as nat),
{
    match d {
        0 => '0',
        1 => '1',
        2 => '2',
        3 => '3',
        4 => '4',
        5 => '5',
        6 => '6',
        7 => '7',
        8 => '8',
        _ => '9',
    }
}

/// The decimal text of `n`.
pub(crate) fn fmt_usize(n: usize) -> (r: String)
    ensures
        r@ == dec_rep(n as nat),
    decreases n,
{
    if n < 10 {
        let mut s = String::new();
        push_char(&mut s, digit_to_char(n));
        proof {
            assert(s@ =~= seq![digit_char(n as nat)]);
        }
        s
    } else {
        let mut s = fmt_usize(n / 10);
        push_char(&mut s, digit_to_char(n % 10));
        proof {
            assert((n as nat) / 10 == (n / 10) as nat);
            assert((n as nat) % 10 == (n % 10) as nat);
        }
        s
    }
}

/// Appends the escaped form of `title` to `out`.
fn append_escaped(out: &mut String, title: &str)
    ensures
        final(out)@ == old(out)@ + esc(title@),
{
    let n = title.unicode_len();
    let mut k: usize = 0;
    while k < n
        invariant
            n == title@.len(),
            0 <= k <= n,
            out@ == old(out)@ + esc(title@.subrange(0, k as int)),
        decreases n - k,
    {
        let ghost pre = title@.subrange(0, k as int);
        let c = title.get_char(k);
        if c == '"' || c == '\\' {
            push_char(out, '\\');
            push_char(out, c);
        } else {
            push_char(out, c);
        }
        proof {
            lemma_esc_push(pre, c);
            assert(title@.subrange(0, k + 1 as int) =~= pre.push(c));
            assert(out@ =~= old(out)@ + esc(title@.subrange(0, k + 1 as int)));
        }
        k += 1;
    }
    proof {
        assert(title@.subrange(0, n as int) =~= title@);
    }
}

/// Appends the encoding of one task to `out`.
fn append_task(out: &mut String, item: &TodoItem)
    ensures
        final(out)@ == old(out)@ + enc_task(item@),
{
    proof {
        reveal_strlit("{\"id\":");
        assert(("{\"id\":")@ =~= tok_id());
        reveal_strlit(",\"title\":\"");
        assert((",\"title\":\"")@ =~= tok_title());
        reveal_strlit(",\"completed\":");
        assert((",\"completed\":")@ =~= tok_comp());
        reveal_strlit("true");
        assert(("true")@ =~= tok_true());
        reveal_strlit("false");
        assert(("false")@ =~= tok_false());
    }
    out.append("{\"id\":");
    let num = fmt_usize(item.id);
    out.append(num.as_str());
    out.append(",\"title\":\"");
    append_escaped(out, item.title.as_str());
    push_char(out, '"');
    out.append(",\"completed\":");
    if item.completed {
        out.append("true");
    } else {
        out.append("false");
    }
    push_char(out, '}');
    proof {
        assert(out@ =~= old(out)@ + enc_task(item@));
    }
}

// ---------------------------------------------------------------
// Parsing (executable)
// ---------------------------------------------------------------

/// Whether the fixed text `pat` occurs in `s` at position `i`.
fn match_at(s: &str, n: usize, i: usize, pat: &str) -> (r: bool)
    requires
        n == s@.len(),
    ensures
        r == lit_at(s@, i as int, pat@),
{
    let m = pat.unicode_len();
    if i > n || m > n - i {
        return false;
    }
    let mut k: usize = 0;
    while k < m
        invariant
            n == s@.len(),
            m == pat@.len(),
            i + m <= n,
            0 <= k <= m,
            forall|q: int| 0 <= q < k ==> s@[i + q] == pat@[q],
        decreases m - k,
    {
        if s.get_char(i + k) != pat.get_char(k) {
            proof {
                assert(!lit_at(s@, i as int, pat@)) by {
                    if lit_at(s@, i as int, pat@) {
                        assert(s@.subrange(i as int, i + pat@.len())[k as int] == pat@[k as int]);
                    }
                }
            }
            return false;
        }
        k += 1;
    }
    proof {
        assert(s@.subrange(i as int, i + pat@.len()) =~= pat@) by {
            assert forall|q: int| 0 <= q < pat@.len() implies s@.subrange(
                i as int,
                i + pat@.len(),
            )[q] == pat@[q] by {}
        }
    }
    true
}

/// The value of a digit character, if it is one.
fn digit_value(c: char) -> (r: Option<u8>)
    ensures
        is_digit(c) ==> r == Some(digit_val(c) as u8),
        !is_digit(c) ==> r is None,
{
    match c {
        '0' => Some(0),
        '1' => Some(1),
        '2' => Some(2),
        '3' => Some(3),
        '4' => Some(4),
        '5' => Some(5),
        '6' => Some(6),
        '7' => Some(7),
        '8' => Some(8),
        '9' => Some(9),
        _ => None,
    }
}

/// The digit run never ends before its start.
proof fn lemma_digits_end_ge(s: Seq<char>, i: int)
    ensures
        digits_end(s, i) >= i,
    decreases s.len() - i,
{
    if 0 <= i < s.len() && is_digit(s[i]) {
        lemma_digits_end_ge(s, i + 1);
    }
}

/// The digit run ends within the text.
proof fn lemma_digits_end_le(s: Seq<char>, i: int)
    requires
        i <= s.len(),
    ensures
        digits_end(s, i) <= s.len(),
    decreases s.len() - i,
{
    if 0 <= i < s.len() && is_digit(s[i]) {
        lemma_digits_end_le(s, i + 1);
    }
}

/// A longer digit text never has a smaller value.
proof fn lemma_val_mono(s: Seq<char>, i0: int, a: int, b: int)
    requires
        0 <= i0 <= a <= b <= s.len(),
    ensures
        val_of(s.subrange(i0, a)) <= val_of(s.subrange(i0, b)),
    decreases b - a,
{
    if a < b {
        lemma_val_mono(s, i0, a, b - 1);
        assert(s.subrange(i0, b).drop_last() =~= s.subrange(i0, b - 1));
        assert(val_of(s.subrange(i0, b)) == val_of(s.subrange(i0, b - 1)) * 10 + digit_val(
            s.subrange(i0, b).last(),
        ));
        assert(val_of(s.subrange(i0, b - 1)) * 10 >= val_of(s.subrange(i0, b - 1)));
    }
}

/// Parses the digit run at `i0` as a `usize`.
fn parse_num(s: &str, n: usize, i0: usize) -> (r: Option<(usize, usize)>)
    requires
        n == s@.len(),
        i0 <= n,
    ensures
        match r {
            Some(v) => sp_num(s@, i0 as int) == Some((v.0 as nat, v.1 as int)) && i0 < v.1 <= n,
            None => sp_num(s@, i0 as int) is None,
        },
{
    let mut i = i0;
    let mut acc: usize = 0;
    while i < n
        invariant
            n == s@.len(),
            i0 <= i <= n,
            digits_end(s@, i0 as int) == digits_end(s@, i as int),
            acc == val_of(s@.subrange(i0 as int, i as int)),
        decreases n - i,
    {
        let c = s.get_char(i);
        match digit_value(c) {
            None => {
                proof {
                    assert(digits_end(s@, i as int) == i as int);
                }
                if i == i0 {
                    return None;
                } else {
                    return Some((acc, i));
                }
            },
            Some(d) => {
                let d = d as usize;
                proof {
                    assert(s@.subrange(i0 as int, i + 1 as int).drop_last() =~= s@.subrange(
                        i0 as int,
                        i as int,
                    ));
                    assert(s@.subrange(i0 as int, i + 1 as int).last() == s@[i as int]);
                    assert(val_of(s@.subrange(i0 as int, i + 1 as int)) == acc * 10 + d);
                }
                if acc > (usize::MAX - d) / 10 {
                    proof {
                        let j = digits_end(s@, i as int);
                        lemma_digits_end_ge(s@, i + 1);
                        lemma_digits_end_le(s@, i + 1);
                        assert(digits_end(s@, i as int) == digits_end(s@, i + 1));
                        assert(acc * 10 + d > usize::MAX);
                        lemma_val_mono(s@, i0 as int, i + 1, j);
                        assert(val_of(s@.subrange(i0 as int, j)) > usize::MAX);
                        assert(j > i0);
                        assert(sp_num(s@, i0 as int) is None);
                    }
                    return None;
                }
                acc = acc * 10 + d;
                i += 1;
            },
        }
    }
    proof {
        assert(digits_end(s@, i as int) == i as int);
    }
    if i == i0 {
        None
    } else {
        Some((acc, i))
    }
}

/// `o` with `p` prepended to a parsed title.
spec fn prepend(p: Seq<char>, o: Option<(Seq<char>, int)>) -> Option<(Seq<char>, int)> {
    match o {
        Some((t, j)) => Some((p + t, j)),
        None => None,
    }
}

/// Parses the rest of a quoted title at `i0`.
fn parse_str(s: &str, n: usize, i0: usize) -> (r: Option<(String, usize)>)
    requires
        n == s@.len(),
        i0 <= n,
    ensures
        match r {
            Some(v) => sp_str(s@, i0 as int) == Some((v.0@, v.1 as int)) && i0 < v.1 <= n,
            None => sp_str(s@, i0 as int) is None,
        },
{
    let mut i = i0;
    let mut acc = String::new();
    proof {
        match sp_str(s@, i0 as int) {
            Some((t, j)) => {
                assert(Seq::<char>::empty() + t =~= t);
            },
            None => {},
        }
        assert(sp_str(s@, i0 as int) == prepend(acc@, sp_str(s@, i as int)));
    }
    while i < n
        invariant
            n == s@.len(),
            i0 <= i <= n,
            sp_str(s@, i0 as int) == prepend(acc@, sp_str(s@, i as int)),
        decreases n - i,
    {
        let ghost prev = acc@;
        let c = s.get_char(i);
        if c == '"' {
            proof {
                assert(sp_str(s@, i as int) == Some((Seq::<char>::empty(), i + 1)));
                assert(prev + Seq::<char>::empty() =~= prev);
            }
            return Some((acc, i + 1));
        } else if c == '\\' {
            if i + 1 < n {
                let c2 = s.get_char(i + 1);
                if c2 == '"' || c2 == '\\' {
                    push_char(&mut acc, c2);
                    proof {
                        match sp_str(s@, i + 2) {
                            Some((t, j)) => {
                                assert(sp_str(s@, i as int) == Some((seq![c2] + t, j)));
                                assert(prev + (seq![c2] + t) =~= prev.push(c2) + t);
                            },
                            None => {},
                        }
                    }
                    i += 2;
                } else {
                    proof {
                        assert(sp_str(s@, i as int) is None);
                    }
                    return None;
                }
            } else {
                proof {
                    assert(sp_str(s@, i as int) is None);
                }
                return None;
            }
        } else {
            push_char(&mut acc, c);
            proof {
                match sp_str(s@, i + 1) {
                    Some((t, j)) => {
                        assert(sp_str(s@, i as int) == Some((seq![c] + t, j)));
                        assert(prev + (seq![c] + t) =~= prev.push(c) + t);
                    },
                    None => {},
                }
            }
            i += 1;
        }
    }
    proof {
        assert(sp_str(s@, i as int) is None);
    }
    None
}

/// Parses `true` or `false` at `i`.
fn parse_bool(s: &str, n: usize, i: usize) -> (r: Option<(bool, usize)>)
    requires
        n == s@.len(),
    ensures
        match r {
            Some(v) => sp_bool(s@, i as int) == Some((v.0, v.1 as int)) && i < v.1 <= n,
            None => sp_bool(s@, i as int) is None,
        },
{
    proof {
        reveal_strlit("true");
        assert(("true")@ =~= tok_true());
        reveal_strlit("false");
        assert(("false")@ =~= tok_false());
    }
    if match_at(s, n, i, "true") {
        Some((true, i + 4))
    } else if match_at(s, n, i, "false") {
        Some((false, i + 5))
    } else {
        None
    }
}

/// Parses one task object at `i`.
fn parse_task(s: &str, n: usize, i: usize) -> (r: Option<(TodoItem, usize)>)
    requires
        n == s@.len(),
    ensures
        match r {
            Some(v) => sp_task(s@, i as int) == Some((v.0@, v.1 as int)) && i < v.1 <= n,
            None => sp_task(s@, i as int) is None,
        },
{
    proof {
        reveal_strlit("{\"id\":");
        assert(("{\"id\":")@ =~= tok_id());
        reveal_strlit(",\"title\":\"");
        assert((",\"title\":\"")@ =~= tok_title());
        reveal_strlit(",\"completed\":");
        assert((",\"completed\":")@ =~= tok_comp());
    }
    if !match_at(s, n, i, "{\"id\":") {
        return None;
    }
    let i1 = i + 6;
    match parse_num(s, n, i1) {
        None => None,
        Some((idv, j)) => {
            if !match_at(s, n, j, ",\"title\":\"") {
                return None;
            }
            let j1 = j + 10;
            match parse_str(s, n, j1) {
                None => None,
                Some((title, k)) => {
                    if !match_at(s, n, k, ",\"completed\":") {
                        return None;
                    }
                    let k1 = k + 13;
                    match parse_bool(s, n, k1) {
                        None => None,
                        Some((b, m)) => {
                            if m < n && s.get_char(m) == '}' {
                                let item = TodoItem { id: idv, title, completed: b };
                                proof {
                                    assert(item@ =~= TaskView {
                                        id: idv as nat,
                                        title: title@,
                                        completed: b,
                                    });
                                }
                                Some((item, m + 1))
                            } else {
                                None
                            }
                        },
                    }
                },
            }
        },
    }
}

/// Parses one or more comma-separated task objects at `i`.
fn parse_tasks(s: &str, n: usize, i: usize) -> (r: Option<(Vec<TodoItem>, usize)>)
    requires
        n == s@.len(),
        i <= n,
    ensures
        match r {
            Some(v) => sp_tasks(s@, i as int) == Some(
                (v.0@.map_values(|it: TodoItem| it@), v.1 as int),
            ) && i < v.1 <= n,
            None => sp_tasks(s@, i as int) is None,
        },
    decreases n - i,
{
    match parse_task(s, n, i) {
        None => None,
        Some((item, j)) => {
            if j < n && s.get_char(j) == ',' {
                match parse_tasks(s, n, j + 1) {
                    None => None,
                    Some((mut items, k)) => {
                        let ghost rest = items@.map_values(|it: TodoItem| it@);
                        items.insert(0, item);
                        proof {
                            assert(items@.map_values(|it: TodoItem| it@) =~= seq![item@] + rest);
                        }
                        Some((items, k))
                    },
                }
            } else {
                let mut items: Vec<TodoItem> = Vec::new();
                let ghost iv = item@;
                items.push(item);
                proof {
                    assert(items@.map_values(|it: TodoItem| it@) =~= seq![iv]);
                }
                Some((items, j))
            }
        },
    }
}

impl TodoList {
    /// Rebuilds a list from the persistence file's content. No file at
    /// all (`None`) yields the empty list, not an error; content that
    /// is not in the persistence format is a `ParseError`.
    pub fn load_from(content: Option<&str>) -> (r: Result<TodoList, ParseError>)
        ensures
            content is None ==> (r matches Ok(l) && l@ == Seq::<TaskView>::empty()),
            content matches Some(text) ==> match r {
                Ok(l) => sp_list(text@) == Some(l@),
                Err(_) => sp_list(text@) is None,
            },
    {
        match content {
            None => Ok(TodoList::new()),
            Some(text) => {
                let n = text.unicode_len();
                proof {
                    reveal_strlit("{\"items\":[");
                    assert(("{\"items\":[")@ =~= tok_head());
                }
                if !match_at(text, n, 0, "{\"items\":[") {
                    return Err(ParseError);
                }
                let i: usize = 10;
                if i < n && text.get_char(i) == ']' {
                    if n == i + 2 && text.get_char(i + 1) == '}' {
                        Ok(TodoList::new())
                    } else {
                        Err(ParseError)
                    }
                } else {
                    match parse_tasks(text, n, i) {
                        None => Err(ParseError),
                        Some((items, j)) => {
                            if n >= 2 && j == n - 2 && text.get_char(j) == ']' && text.get_char(
                                j + 1,
                            ) == '}' {
                                let l = TodoList { items };
                                proof {
                                    assert(sp_list(text@) == Some(l@));
                                }
                                Ok(l)
                            } else {
                                Err(ParseError)
                            }
                        },
                    }
                }
            },
        }
    }

    /// The full text of the list in the persistence format, exactly
    /// `enc_list` of the list's contents.
    pub fn save_string(&self) -> (r: String)
        ensures
            r@ == enc_list(self@),
    {
        let mut out = String::new();
        proof {
            reveal_strlit("{\"items\":[");
            assert(("{\"items\":[")@ =~= tok_head());
            reveal_strlit("]}");
            assert(("]}")@ =~= tok_tail());
        }
        out.append("{\"items\":[");
        proof {
            assert(out@ =~= tok_head() + enc_tasks(self@.subrange(0, 0)));
        }
        let m = self.items.len();
        let mut i: usize = 0;
        while i < m
            invariant
                m == self@.len(),
                m == self.items@.len(),
                0 <= i <= m,
                out@ == tok_head() + enc_tasks(self@.subrange(0, i as int)),
            decreases m - i,
        {
            let ghost pre = self@.subrange(0, i as int);
            if i > 0 {
                push_char(&mut out, ',');
            }
            append_task(&mut out, &self.items[i]);
            proof {
                assert(self@[i as int] == self.items@[i as int]@);
                lemma_enc_tasks_push(pre, self@[i as int]);
                assert(self@.subrange(0, i + 1 as int) =~= pre.push(self@[i as int]));
                assert(out@ =~= tok_head() + enc_tasks(self@.subrange(0, i + 1 as int)));
            }
            i += 1;
        }
        proof {
            assert(self@.subrange(0, m as int) =~= self@);
        }
        out.append("]}");
        proof {
            assert(out@ =~= enc_list(self@));
        }
        out
    }
}

} // verus!

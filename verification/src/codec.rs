//! The persistence codec: a task sequence rendered as one text, and parsed
//! back. Every field is length- or digit-delimited, so the round trip is
//! exact: decoding an encoded sequence yields the same tasks field for field.

use vstd::prelude::*;

use crate::digits::is_digit;
use crate::digits::parse_digits_rec;
use crate::digits::parse_number;
use crate::digits::push_digits;
use crate::digits::spec_digits;
use crate::digits::spec_parse_number;
use crate::digits::lemma_parse_number_of_digits;
use crate::strings::chars_to_string;
use crate::strings::push_str_chars;
use crate::task::DueDate;
use crate::task::Task;
use crate::task::TaskView;

verus! {

/// The views of a sequence of tasks.
pub open spec fn views_of(s: Seq<Task>) -> Seq<TaskView> {
    s.map_values(|t: Task| t@)
}

/// A number rendered as digits followed by a colon.
pub open spec fn enc_num(n: nat) -> Seq<char> {
    spec_digits(n) + seq![':']
}

/// A text field rendered as its length, a colon, then its characters.
pub open spec fn enc_text(s: Seq<char>) -> Seq<char> {
    enc_num(s.len()) + s
}

/// An optional due date: `0`, or `1` followed by year, month and day.
pub open spec fn enc_due(due: Option<DueDate>) -> Seq<char> {
    match due {
        Some(d) => seq!['1'] + enc_num(d.year as nat) + enc_num(d.month as nat) + enc_num(
            d.day as nat,
        ),
        None => seq!['0'],
    }
}

/// A flag rendered as a single character.
pub open spec fn enc_flag(b: bool) -> Seq<char> {
    if b {
        seq!['1']
    } else {
        seq!['0']
    }
}

/// One task record.
pub open spec fn enc_task(t: TaskView) -> Seq<char> {
    enc_text(t.name) + enc_text(t.category) + enc_text(t.sub_category) + enc_due(t.due) + enc_flag(
        t.done,
    ) + enc_num(t.priority as nat)
}

/// All task records, in order.
pub open spec fn enc_tasks(ts: Seq<TaskView>) -> Seq<char>
    decreases ts.len(),
{
    if ts.len() == 0 {
        Seq::<char>::empty()
    } else {
        enc_task(ts[0]) + enc_tasks(ts.skip(1))
    }
}

/// The whole encoding: the task count, then each record.
pub open spec fn spec_encode(ts: Seq<TaskView>) -> Seq<char> {
    enc_num(ts.len()) + enc_tasks(ts)
}

/// Parses a number followed by a colon.
pub open spec fn spec_parse_num(s: Seq<char>) -> Option<(nat, Seq<char>)> {
    match spec_parse_number(s) {
        Some((n, r)) => if r.len() >= 1 && r[0] == ':' {
            Some((n, r.skip(1)))
        } else {
            None
        },
        None => None,
    }
}

/// Parses a length-prefixed text field.
pub open spec fn spec_parse_text(s: Seq<char>) -> Option<(Seq<char>, Seq<char>)> {
    match spec_parse_num(s) {
        Some((n, r)) => if r.len() >= n {
            Some((r.subrange(0, n as int), r.skip(n as int)))
        } else {
            None
        },
        None => None,
    }
}

/// Parses an optional due date.
pub open spec fn spec_parse_due(s: Seq<char>) -> Option<(Option<DueDate>, Seq<char>)> {
    if s.len() == 0 {
        None
    } else if s[0] == '0' {
        Some((None, s.skip(1)))
    } else if s[0] == '1' {
        match spec_parse_num(s.skip(1)) {
            Some((y, r1)) => match spec_parse_num(r1) {
                Some((m, r2)) => match spec_parse_num(r2) {
                    Some((d, r3)) => if y <= u32::MAX && m <= u8::MAX && d <= u8::MAX {
                        Some((Some(DueDate { year: y as u32, month: m as u8, day: d as u8 }), r3))
                    } else {
                        None
                    },
                    None => None,
                },
                None => None,
            },
            None => None,
        }
    } else {
        None
    }
}

/// Parses a single-character flag.
pub open spec fn spec_parse_flag(s: Seq<char>) -> Option<(bool, Seq<char>)> {
    if s.len() == 0 {
        None
    } else if s[0] == '0' {
        Some((false, s.skip(1)))
    } else if s[0] == '1' {
        Some((true, s.skip(1)))
    } else {
        None
    }
}

/// Parses one task record.
pub open spec fn spec_parse_task(s: Seq<char>) -> Option<(TaskView, Seq<char>)> {
    match spec_parse_text(s) {
        Some((name, r1)) => match spec_parse_text(r1) {
            Some((category, r2)) => match spec_parse_text(r2) {
                Some((sub_category, r3)) => match spec_parse_due(r3) {
                    Some((due, r4)) => match spec_parse_flag(r4) {
                        Some((done, r5)) => match spec_parse_num(r5) {
                            Some((p, r6)) => if p <= u8::MAX {
                                Some(
                                    (
                                        TaskView {
                                            name,
                                            category,
                                            sub_category,
                                            due,
                                            done,
                                            priority: p as u8,
                                        },
                                        r6,
                                    ),
                                )
                            } else {
                                None
                            },
                            None => None,
                        },
                        None => None,
                    },
                    None => None,
                },
                None => None,
            },
            None => None,
        },
        None => None,
    }
}

/// Parses exactly `n` task records.
pub open spec fn spec_parse_tasks(s: Seq<char>, n: nat) -> Option<(Seq<TaskView>, Seq<char>)>
    decreases n,
{
    if n == 0 {
        Some((Seq::<TaskView>::empty(), s))
    } else {
        match spec_parse_task(s) {
            Some((t, r)) => match spec_parse_tasks(r, (n - 1) as nat) {
                Some((ts, r2)) => Some((seq![t] + ts, r2)),
                None => None,
            },
            None => None,
        }
    }
}

/// The whole decoding: the count, that many records, and nothing after them.
pub open spec fn spec_decode(s: Seq<char>) -> Option<Seq<TaskView>> {
    match spec_parse_num(s) {
        Some((n, r)) => match spec_parse_tasks(r, n) {
            Some((ts, r2)) => if r2.len() == 0 {
                Some(ts)
            } else {
                None
            },
            None => None,
        },
        None => None,
    }
}

/// Parsing an encoded number yields it back, with the remainder untouched.
pub proof fn lemma_parse_num_enc(n: nat, rest: Seq<char>)
    ensures
        spec_parse_num(enc_num(n) + rest) == Some((n, rest)),
{
    let tail = seq![':'] + rest;
    assert(enc_num(n) + rest =~= spec_digits(n) + tail);
    assert(!is_digit(tail[0]));
    lemma_parse_number_of_digits(n, tail);
    assert(tail.skip(1) =~= rest);
}

/// Parsing an encoded text field yields it back.
pub proof fn lemma_parse_text_enc(t: Seq<char>, rest: Seq<char>)
    ensures
        spec_parse_text(enc_text(t) + rest) == Some((t, rest)),
{
    let tail = t + rest;
    assert(enc_text(t) + rest =~= enc_num(t.len()) + tail);
    lemma_parse_num_enc(t.len(), tail);
    assert(tail.len() >= t.len());
    assert(tail.subrange(0, t.len() as int) =~= t);
    assert(tail.skip(t.len() as int) =~= rest);
}

/// Parsing an encoded due date yields it back.
pub proof fn lemma_parse_due_enc(due: Option<DueDate>, rest: Seq<char>)
    ensures
        spec_parse_due(enc_due(due) + rest) == Some((due, rest)),
{
    match due {
        None => {
            let s = enc_due(due) + rest;
            assert(s[0] == '0');
            assert(s.skip(1) =~= rest);
        },
        Some(d) => {
            let s = enc_due(due) + rest;
            assert(s[0] == '1');
            let t1 = enc_num(d.month as nat) + (enc_num(d.day as nat) + rest);
            assert(s.skip(1) =~= enc_num(d.year as nat) + t1);
            lemma_parse_num_enc(d.year as nat, t1);
            lemma_parse_num_enc(d.month as nat, enc_num(d.day as nat) + rest);
            lemma_parse_num_enc(d.day as nat, rest);
        },
    }
}

/// Parsing an encoded task record yields it back, field for field.
pub proof fn lemma_parse_task_enc(t: TaskView, rest: Seq<char>)
    ensures
        spec_parse_task(enc_task(t) + rest) == Some((t, rest)),
{
    let s5 = enc_num(t.priority as nat) + rest;
    let s4 = enc_flag(t.done) + s5;
    let s3 = enc_due(t.due) + s4;
    let s2 = enc_text(t.sub_category) + s3;
    let s1 = enc_text(t.category) + s2;
    assert(enc_task(t) + rest =~= enc_text(t.name) + s1);
    lemma_parse_text_enc(t.name, s1);
    lemma_parse_text_enc(t.category, s2);
    lemma_parse_text_enc(t.sub_category, s3);
    lemma_parse_due_enc(t.due, s4);
    assert(s4[0] == enc_flag(t.done)[0]);
    assert(s4.skip(1) =~= s5);
    assert(spec_parse_flag(s4) == Some((t.done, s5)));
    lemma_parse_num_enc(t.priority as nat, rest);
}

/// Parsing `ts.len()` encoded records yields them all back, in order.
pub proof fn lemma_parse_tasks_enc(ts: Seq<TaskView>, rest: Seq<char>)
    ensures
        spec_parse_tasks(enc_tasks(ts) + rest, ts.len()) == Some((ts, rest)),
    decreases ts.len(),
{
    if ts.len() == 0 {
        assert(enc_tasks(ts) + rest =~= rest);
        assert(spec_parse_tasks(rest, 0) == Some((Seq::<TaskView>::empty(), rest)));
        assert(ts =~= Seq::<TaskView>::empty());
    } else {
        let tail = enc_tasks(ts.skip(1)) + rest;
        assert(enc_tasks(ts) + rest =~= enc_task(ts[0]) + tail);
        lemma_parse_task_enc(ts[0], tail);
        lemma_parse_tasks_enc(ts.skip(1), rest);
        assert(seq![ts[0]] + ts.skip(1) =~= ts);
    }
}

/// The round-trip law: decoding an encoding yields the same task sequence,
/// field for field, for every task sequence.
pub proof fn lemma_round_trip(ts: Seq<TaskView>)
    ensures
        spec_decode(spec_encode(ts)) == Some(ts),
{
    lemma_parse_num_enc(ts.len(), enc_tasks(ts));
    lemma_parse_tasks_enc(ts, Seq::<char>::empty());
    assert(enc_tasks(ts) + Seq::<char>::empty() =~= enc_tasks(ts));
}

/// The greedy digit parse never grows the remainder.
proof fn lemma_parse_digits_rest(s: Seq<char>, acc: nat)
    ensures
        parse_digits_rec(s, acc).1.len() <= s.len(),
    decreases s.len(),
{
    if s.len() > 0 && is_digit(s[0]) {
        lemma_parse_digits_rest(s.skip(1), acc * 10 + crate::digits::digit_val(s[0]));
    }
}

/// A successful number parse consumes at least one character.
proof fn lemma_parse_number_rest(s: Seq<char>)
    ensures
        spec_parse_number(s) matches Some((n, r)) ==> r.len() < s.len(),
{
    if s.len() > 0 && is_digit(s[0]) {
        lemma_parse_digits_rest(s.skip(1), crate::digits::digit_val(s[0]));
    }
}

/// A successful task parse consumes at least one character, and the
/// remainder is part of the input.
proof fn lemma_parse_task_consumes(s: Seq<char>)
    ensures
        spec_parse_task(s) matches Some((t, r)) ==> r.len() < s.len(),
{
    if spec_parse_task(s) is Some {
        lemma_parse_number_rest(s);
        let (name, r1) = spec_parse_text(s).unwrap();
        assert(r1.len() < s.len());
        lemma_parse_number_rest(r1);
        let (cat, r2) = spec_parse_text(r1).unwrap();
        assert(r2.len() <= r1.len());
        lemma_parse_number_rest(r2);
        let (sub, r3) = spec_parse_text(r2).unwrap();
        assert(r3.len() <= r2.len());
        let (due, r4) = spec_parse_due(r3).unwrap();
        if r3[0] == '1' {
            lemma_parse_number_rest(r3.skip(1));
            let (y, q1) = spec_parse_num(r3.skip(1)).unwrap();
            lemma_parse_number_rest(q1);
            let (m, q2) = spec_parse_num(q1).unwrap();
            lemma_parse_number_rest(q2);
        }
        assert(r4.len() <= r3.len());
        let (done, r5) = spec_parse_flag(r4).unwrap();
        assert(r5.len() <= r4.len());
        lemma_parse_number_rest(r5);
        let (p, r6) = spec_parse_num(r5).unwrap();
        assert(r6.len() <= r5.len());
    }
}

/// Parsing more records than there are characters must fail.
proof fn lemma_parse_tasks_too_many(s: Seq<char>, n: nat)
    requires
        n > s.len(),
    ensures
        spec_parse_tasks(s, n) is None,
    decreases n,
{
    if spec_parse_task(s) is Some {
        let (t, r) = spec_parse_task(s).unwrap();
        lemma_parse_task_consumes(s);
        lemma_parse_tasks_too_many(r, (n - 1) as nat);
    }
}

/// Appending one record to the sequence appends its encoding to the text.
proof fn lemma_enc_tasks_push(ts: Seq<TaskView>, t: TaskView)
    ensures
        enc_tasks(ts.push(t)) == enc_tasks(ts) + enc_task(t),
    decreases ts.len(),
{
    if ts.len() == 0 {
        assert(ts.push(t)[0] == t);
        assert(ts.push(t).skip(1) =~= Seq::<TaskView>::empty());
        assert(enc_tasks(Seq::<TaskView>::empty()) == Seq::<char>::empty());
        assert(enc_tasks(ts.push(t)) == enc_task(t) + Seq::<char>::empty());
        assert(enc_task(t) + Seq::<char>::empty() =~= Seq::<char>::empty() + enc_task(t));
    } else {
        assert(ts.push(t)[0] == ts[0]);
        assert(ts.push(t).skip(1) =~= ts.skip(1).push(t));
        lemma_enc_tasks_push(ts.skip(1), t);
        assert(enc_tasks(ts.push(t)) == enc_task(ts[0]) + (enc_tasks(ts.skip(1)) + enc_task(t)));
        assert(enc_task(ts[0]) + (enc_tasks(ts.skip(1)) + enc_task(t)) =~= (enc_task(ts[0])
            + enc_tasks(ts.skip(1))) + enc_task(t));
    }
}

/// Appends `enc_num(n)` to `out`.
fn push_num(n: u64, out: &mut Vec<char>)
    ensures
        final(out)@ == old(out)@ + enc_num(n as nat),
{
    push_digits(n, out);
    out.push(':');
    assert(final(out)@ =~= old(out)@ + enc_num(n as nat));
}

/// Appends `enc_text(s@)` to `out`.
fn push_text(s: &str, out: &mut Vec<char>)
    ensures
        final(out)@ == old(out)@ + enc_text(s@),
{
    let n = s.unicode_len();
    push_num(n as u64, out);
    push_str_chars(s, out);
    assert(final(out)@ =~= old(out)@ + enc_text(s@));
}

/// Appends `enc_task(t@)` to `out`.
fn push_task(t: &Task, out: &mut Vec<char>)
    ensures
        final(out)@ == old(out)@ + enc_task(t@),
{
    push_text(t.name.as_str(), out);
    push_text(t.category.as_str(), out);
    push_text(t.sub_category.as_str(), out);
    match t.due {
        Some(d) => {
            out.push('1');
            push_num(d.year as u64, out);
            push_num(d.month as u64, out);
            push_num(d.day as u64, out);
        },
        None => {
            out.push('0');
        },
    }
    if t.done {
        out.push('1');
    } else {
        out.push('0');
    }
    push_num(t.priority as u64, out);
    assert(final(out)@ =~= old(out)@ + enc_task(t@));
}

/// Serializes the full task sequence; see [`spec_encode`].
pub fn encode(tasks: &Vec<Task>) -> (r: Vec<char>)
    ensures
        r@ == spec_encode(views_of(tasks@)),
{
    let mut out: Vec<char> = Vec::new();
    push_num(tasks.len() as u64, &mut out);
    assert(views_of(tasks@).len() == tasks@.len());
    let mut i: usize = 0;
    while i < tasks.len()
        invariant
            0 <= i <= tasks@.len(),
            out@ == enc_num(tasks@.len() as nat) + enc_tasks(
                views_of(tasks@).subrange(0, i as int),
            ),
        decreases tasks@.len() - i,
    {
        proof {
            lemma_enc_tasks_push(views_of(tasks@).subrange(0, i as int), tasks@[i as int]@);
            assert(views_of(tasks@).subrange(0, i as int).push(tasks@[i as int]@) =~= views_of(
                tasks@,
            ).subrange(0, i as int + 1));
        }
        push_task(&tasks[i], &mut out);
        assert(out@ =~= enc_num(tasks@.len() as nat) + enc_tasks(
            views_of(tasks@).subrange(0, i as int + 1),
        ));
        i = i + 1;
    }
    assert(views_of(tasks@).subrange(0, tasks@.len() as int) =~= views_of(tasks@));
    out
}

/// Parses a number and its colon at `i`, mirroring [`spec_parse_num`] on
/// `v@.skip(i)`. `None` also covers a value above `u64::MAX`.
fn parse_num_at(v: &Vec<char>, i: usize) -> (r: Option<(u64, usize)>)
    requires
        i <= v@.len(),
    ensures
        match r {
            Some((n, j)) => {
                &&& i <= j <= v@.len()
                &&& spec_parse_num(v@.skip(i as int)) == Some((n as nat, v@.skip(j as int)))
            },
            None => match spec_parse_num(v@.skip(i as int)) {
                Some((n, _)) => n > u64::MAX,
                None => true,
            },
        },
{
    match parse_number(v, i) {
        Some((n, j)) => {
            if j < v.len() {
                let c = v[j];
                assert(v@.skip(j as int)[0] == c);
                if c == ':' {
                    assert(v@.skip(j as int).skip(1) =~= v@.skip(j as int + 1));
                    Some((n, j + 1))
                } else {
                    None
                }
            } else {
                assert(v@.skip(j as int).len() == 0);
                None
            }
        },
        None => None,
    }
}

/// Parses a length-prefixed text field at `i`, mirroring [`spec_parse_text`].
fn parse_text_at(v: &Vec<char>, i: usize) -> (r: Option<(String, usize)>)
    requires
        i <= v@.len(),
    ensures
        match r {
            Some((s, j)) => {
                &&& i <= j <= v@.len()
                &&& spec_parse_text(v@.skip(i as int)) == Some((s@, v@.skip(j as int)))
            },
            None => spec_parse_text(v@.skip(i as int)) is None,
        },
{
    proof {
        lemma_parse_number_rest(v@.skip(i as int));
    }
    let vlen: usize = v.len();
    match parse_num_at(v, i) {
        Some((n, j)) => {
            let rem: usize = vlen - j;
            if n > rem as u64 {
                return None;
            }
            let m = n as usize;
            let mut field: Vec<char> = Vec::new();
            let mut k: usize = 0;
            while k < m
                invariant
                    0 <= k <= m,
                    j + m <= vlen,
                    vlen == v@.len(),
                    field@ == v@.subrange(j as int, j as int + k as int),
                decreases m - k,
            {
                field.push(v[j + k]);
                assert(field@ =~= v@.subrange(j as int, j as int + k as int + 1));
                k = k + 1;
            }
            let s = chars_to_string(&field);
            proof {
                assert(v@.skip(j as int).subrange(0, m as int) =~= v@.subrange(
                    j as int,
                    j as int + m as int,
                ));
                assert(v@.skip(j as int).skip(m as int) =~= v@.skip(j as int + m as int));
            }
            Some((s, j + m))
        },
        None => {
            proof {
                if spec_parse_num(v@.skip(i as int)) is Some {
                    let (n, r) = spec_parse_num(v@.skip(i as int)).unwrap();
                    assert(n > u64::MAX);
                    assert(r.len() <= v@.len());
                    assert(v@.len() == vlen <= usize::MAX);
                    assert(r.len() < n);
                }
            }
            None
        },
    }
}

/// Parses an optional due date at `i`, mirroring [`spec_parse_due`].
fn parse_due_at(v: &Vec<char>, i: usize) -> (r: Option<(Option<DueDate>, usize)>)
    requires
        i <= v@.len(),
    ensures
        match r {
            Some((due, j)) => {
                &&& i <= j <= v@.len()
                &&& spec_parse_due(v@.skip(i as int)) == Some((due, v@.skip(j as int)))
            },
            None => spec_parse_due(v@.skip(i as int)) is None,
        },
{
    if i >= v.len() {
        return None;
    }
    let c = v[i];
    assert(v@.skip(i as int)[0] == c);
    if c == '0' {
        assert(v@.skip(i as int).skip(1) =~= v@.skip(i as int + 1));
        return Some((None, i + 1));
    }
    if c != '1' {
        return None;
    }
    assert(v@.skip(i as int).skip(1) =~= v@.skip(i as int + 1));
    proof {
        lemma_parse_number_rest(v@.skip(i as int + 1));
    }
    match parse_num_at(v, i + 1) {
        Some((y, j1)) => {
            proof {
                lemma_parse_number_rest(v@.skip(j1 as int));
            }
            match parse_num_at(v, j1) {
                Some((m, j2)) => {
                    proof {
                        lemma_parse_number_rest(v@.skip(j2 as int));
                    }
                    match parse_num_at(v, j2) {
                        Some((d, j3)) => {
                            if y <= u32::MAX as u64 && m <= u8::MAX as u64 && d <= u8::MAX as u64 {
                                Some(
                                    (
                                        Some(
                                            DueDate {
                                                year: y as u32,
                                                month: m as u8,
                                                day: d as u8,
                                            },
                                        ),
                                        j3,
                                    ),
                                )
                            } else {
                                None
                            }
                        },
                        None => None,
                    }
                },
                None => None,
            }
        },
        None => None,
    }
}

/// Parses one task record at `i`, mirroring [`spec_parse_task`].
fn parse_task_at(v: &Vec<char>, i: usize) -> (r: Option<(Task, usize)>)
    requires
        i <= v@.len(),
    ensures
        match r {
            Some((t, j)) => {
                &&& i <= j <= v@.len()
                &&& spec_parse_task(v@.skip(i as int)) == Some((t@, v@.skip(j as int)))
            },
            None => spec_parse_task(v@.skip(i as int)) is None,
        },
{
    let (name, j1) = match parse_text_at(v, i) {
        Some(x) => x,
        None => {
            return None;
        },
    };
    let (category, j2) = match parse_text_at(v, j1) {
        Some(x) => x,
        None => {
            return None;
        },
    };
    let (sub_category, j3) = match parse_text_at(v, j2) {
        Some(x) => x,
        None => {
            return None;
        },
    };
    let (due, j4) = match parse_due_at(v, j3) {
        Some(x) => x,
        None => {
            return None;
        },
    };
    if j4 >= v.len() {
        return None;
    }
    let fc = v[j4];
    assert(v@.skip(j4 as int)[0] == fc);
    let done = if fc == '1' {
        true
    } else if fc == '0' {
        false
    } else {
        return None;
    };
    assert(v@.skip(j4 as int).skip(1) =~= v@.skip(j4 as int + 1));
    let (p, j6) = match parse_num_at(v, j4 + 1) {
        Some(x) => x,
        None => {
            proof {
                if spec_parse_num(v@.skip(j4 as int + 1)) is Some {
                    let (n, _r) = spec_parse_num(v@.skip(j4 as int + 1)).unwrap();
                    assert(n > u64::MAX >= u8::MAX);
                }
            }
            return None;
        },
    };
    if p > u8::MAX as u64 {
        return None;
    }
    let t = Task { name, category, sub_category, due, done, priority: p as u8 };
    Some((t, j6))
}

/// Deserializes a task sequence; see [`spec_decode`]. `None` exactly where
/// the text is not a well-formed encoding.
pub fn decode(v: &Vec<char>) -> (r: Option<Vec<Task>>)
    ensures
        match r {
            Some(ts) => spec_decode(v@) == Some(views_of(ts@)),
            None => spec_decode(v@) is None,
        },
{
    assert(v@.skip(0) =~= v@);
    let vlen: usize = v.len();
    let (count, start) = match parse_num_at(v, 0) {
        Some(x) => x,
        None => {
            proof {
                if spec_parse_num(v@) is Some {
                    let (n, r) = spec_parse_num(v@).unwrap();
                    assert(n > u64::MAX);
                    lemma_parse_number_rest(v@);
                    assert(r.len() <= v@.len() == vlen <= usize::MAX);
                    lemma_parse_tasks_too_many(r, n);
                }
            }
            return None;
        },
    };
    let ghost r0 = v@.skip(start as int);
    let mut out: Vec<Task> = Vec::new();
    let mut i: usize = start;
    let mut k: u64 = 0;
    while k < count
        invariant
            0 <= k <= count,
            start <= i <= v@.len(),
            r0 == v@.skip(start as int),
            spec_parse_num(v@) == Some((count as nat, r0)),
            out@.len() == k,
            match spec_parse_tasks(v@.skip(i as int), (count - k) as nat) {
                Some((ts2, rr)) => spec_parse_tasks(r0, count as nat) == Some(
                    (views_of(out@) + ts2, rr),
                ),
                None => spec_parse_tasks(r0, count as nat) is None,
            },
        decreases count - k,
    {
        match parse_task_at(v, i) {
            Some((t, j)) => {
                proof {
                    let rest = v@.skip(j as int);
                    if spec_parse_tasks(rest, (count - k - 1) as nat) is Some {
                        let (ts3, rr) = spec_parse_tasks(rest, (count - k - 1) as nat).unwrap();
                        assert(spec_parse_tasks(v@.skip(i as int), (count - k) as nat) == Some(
                            (seq![t@] + ts3, rr),
                        ));
                        assert(views_of(out@.push(t)) + ts3 =~= views_of(out@) + (seq![t@] + ts3));
                    }
                }
                out.push(t);
                i = j;
                k = k + 1;
            },
            None => {
                assert(spec_parse_tasks(v@.skip(i as int), (count - k) as nat) is None);
                return None;
            },
        }
    }
    assert(spec_parse_tasks(v@.skip(i as int), 0) == Some(
        (Seq::<TaskView>::empty(), v@.skip(i as int)),
    ));
    assert(views_of(out@) + Seq::<TaskView>::empty() =~= views_of(out@));
    if i == v.len() {
        assert(v@.skip(i as int).len() == 0);
        Some(out)
    } else {
        assert(v@.skip(i as int).len() > 0);
        None
    }
}

/// Deserializes a task sequence, substituting the empty sequence where the
/// text is not a well-formed encoding: a missing or corrupt durable file is
/// recovered from, never fatal.
pub fn decode_or_empty(v: &Vec<char>) -> (r: Vec<Task>)
    ensures
        match spec_decode(v@) {
            Some(ts) => views_of(r@) == ts,
            None => r@.len() == 0,
        },
{
    match decode(v) {
        Some(ts) => ts,
        None => Vec::new(),
    }
}

} // verus!

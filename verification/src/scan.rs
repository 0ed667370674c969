//! The bookkeeping of one scan: the process table, what is shown and logged
//! for each released process, the order of the list, and the dashboard.
use vstd::prelude::*;
use std::collections::HashMap;
use crate::names::{chars_lt, differs_first_below, lemma_chars_lt_first_difference, views};
use crate::names::chars_less;
use crate::process::Proc;
use crate::rule::{is_matched, lists_config, matched, Config, EditableConfig, Rule};
use crate::text::{append_chars, chars_of, decimal, decimal_chars, padded, padded_chars, string_of};

verus! {

broadcast use vstd::std_specs::hash::group_hash_axioms;

/// The decoding of UTF-16 units that `String::from_utf16_lossy` performs:
/// a unit outside U+D800..U+DFFF is that character; a high surrogate
/// (D800..DBFF) followed by a low surrogate (DC00..DFFF) is the character
/// the pair encodes; any other surrogate becomes U+FFFD and decoding goes on
/// with the next unit.
pub open spec fn utf16_lossy(units: Seq<u16>) -> Seq<char>
    decreases units.len(),
{
    if units.len() == 0 {
        seq![]
    } else {
        let u = units[0];
        if u < 0xD800 || u > 0xDFFF {
            seq![u as char] + utf16_lossy(units.drop_first())
        } else if u <= 0xDBFF && units.len() >= 2 && 0xDC00 <= units[1] <= 0xDFFF {
            seq![(0x10000 + (u - 0xD800) * 0x400 + (units[1] - 0xDC00)) as char] + utf16_lossy(
                units.subrange(2, units.len() as int),
            )
        } else {
            seq!['\u{FFFD}'] + utf16_lossy(units.drop_first())
        }
    }
}

/// Decodes UTF-16 units (std `String::from_utf16_lossy`); the contract
/// states the decoding that its documentation describes (`utf16_lossy`).
#[verifier::external_body]
fn decode_utf16_lossy(units: &Vec<u16>) -> (r: String)
    ensures
        r@ == utf16_lossy(units@),
{
    String::from_utf16_lossy(units.as_slice())
}

/// The units of a NUL-terminated wide string before its first NUL (all of
/// them when there is none).
pub open spec fn before_nul(values: Seq<u16>) -> Seq<u16>
    decreases values.len(),
{
    if values.len() == 0 || values[0] == 0 {
        seq![]
    } else {
        seq![values[0]] + before_nul(values.drop_first())
    }
}

/// The name held in a fixed-size wide-character buffer: the units before
/// the first NUL, decoded.
pub fn wide_name(values: &[u16]) -> (r: String)
    ensures
        r@ == utf16_lossy(before_nul(values@)),
{
    let mut units: Vec<u16> = Vec::new();
    let mut i: usize = 0;
    assert(values@.skip(0) == values@);
    while i < values.len() && values[i] != 0
        invariant
            0 <= i <= values.len(),
            before_nul(values@) == units@ + before_nul(values@.skip(i as int)),
        decreases values.len() - i,
    {
        let ghost rest = values@.skip(i as int);
        assert(rest.drop_first() == values@.skip(i + 1));
        units.push(values[i]);
        assert(units@ + before_nul(values@.skip(i + 1)) =~= (units@.drop_last()) + (seq![
            rest[0],
        ] + before_nul(rest.drop_first())));
        i += 1;
    }
    assert(before_nul(values@.skip(i as int)) == Seq::<u16>::empty());
    assert(units@ + Seq::<u16>::empty() == units@);
    decode_utf16_lossy(&units)
}

/// The process table built from a snapshot: each process under its id, a
/// later entry replacing an earlier one with the same id.
pub open spec fn table_of(list: Seq<Proc>) -> Map<u32, Proc>
    decreases list.len(),
{
    if list.len() == 0 {
        Map::empty()
    } else {
        table_of(list.drop_last()).insert(list.last().pid, list.last())
    }
}

/// A table built from a snapshot files each process under its own id.
pub proof fn lemma_table_of_wf(list: Seq<Proc>)
    ensures
        table_wf(table_of(list)),
    decreases list.len(),
{
    if list.len() > 0 {
        lemma_table_of_wf(list.drop_last());
    }
}

/// Builds the process table from a snapshot.
pub fn process_table(list: Vec<Proc>) -> (r: HashMap<u32, Proc>)
    ensures
        r@ == table_of(list@),
        table_wf(r@),
{
    proof {
        lemma_table_of_wf(list@);
    }
    let ghost all = list@;
    let mut out: HashMap<u32, Proc> = HashMap::new();
    for p in it: list.into_iter()
        invariant
            it.seq() == all,
            out@ == table_of(all.take(it.index() as int)),
    {
        let ghost i = it.index() as int;
        assert(all.take(i + 1).drop_last() == all.take(i));
        out.insert(p.pid, p);
    }
    assert(all.take(all.len() as int) == all);
    out
}

/// What the dashboard shows of one released process.
pub struct ProcessState {
    pub pid: u32,
    pub parent_pid: u32,
    pub name: String,
    pub parent: String,
    pub ok: bool,
    pub detail: String,
}

/// The result of one scan.
pub struct ScanState {
    pub last_scan: String,
    pub scanned: usize,
    pub processes: Vec<ProcessState>,
}

impl Default for ScanState {
    fn default() -> (r: Self)
        ensures
            r.last_scan@ == Seq::<char>::empty(),
            r.scanned == 0,
            r.processes@.len() == 0,
    {
        ScanState { last_scan: String::new(), scanned: 0, processes: Vec::new() }
    }
}

/// The log message for a release attempt.
pub open spec fn attempt_message(p: Proc, result: Result<(), u32>) -> Seq<char> {
    match result {
        Ok(()) => "ecooff pid="@ + decimal(p.pid as nat) + " name="@ + p.name@,
        Err(e) => "failed pid="@ + decimal(p.pid as nat) + " name="@ + p.name@ + " error="@
            + decimal(e as nat),
    }
}

/// The detail shown for a release attempt.
pub open spec fn attempt_detail(result: Result<(), u32>) -> Seq<char> {
    match result {
        Ok(()) => "已解除效能限制"@,
        Err(e) => "失败 · "@ + decimal(e as nat),
    }
}

/// The name shown for a process's parent: its name when the parent is in
/// the table, otherwise a dash.
pub open spec fn parent_label(p: Proc, all: Map<u32, Proc>) -> Seq<char> {
    if all.contains_key(p.parent) {
        all[p.parent].name@
    } else {
        "—"@
    }
}

/// Whether a release attempt's outcome differs from the last scan's (and so
/// is logged).
pub open spec fn outcome_changed(
    pid: u32,
    result: Result<(), u32>,
    previous: Map<u32, Result<(), u32>>,
) -> bool {
    !(previous.contains_key(pid) && previous[pid] == result)
}

/// Appends the decimal form of `n`.
fn push_decimal(v: &mut Vec<char>, n: u64)
    ensures
        final(v)@ == old(v)@ + decimal(n as nat),
{
    let d = decimal_chars(n);
    append_chars(v, &d);
}

/// Appends the characters of `s`.
fn push_str(v: &mut Vec<char>, s: &str)
    ensures
        final(v)@ == old(v)@ + s@,
{
    let c = chars_of(s);
    append_chars(v, &c);
}

/// What one release attempt on `p` produces: the log message when its
/// outcome differs from the previous scan's, and the dashboard entry.
pub fn report(
    p: &Proc,
    all: &HashMap<u32, Proc>,
    result: Result<(), u32>,
    previous: &HashMap<u32, Result<(), u32>>,
) -> (r: (Option<String>, ProcessState))
    ensures
        outcome_changed(p.pid, result, previous@) ==> (r.0 matches Some(m) && m@
            == attempt_message(*p, result)),
        !outcome_changed(p.pid, result, previous@) ==> r.0 is None,
        r.1.pid == p.pid,
        r.1.parent_pid == p.parent,
        r.1.name@ == p.name@,
        r.1.parent@ == parent_label(*p, all@),
        r.1.ok == (result is Ok),
        r.1.detail@ == attempt_detail(result),
{
    let same = match previous.get(&p.pid) {
        Some(prev) => {
            assert(previous@.contains_key(p.pid) && previous@[p.pid] == *prev);
            match prev {
                Ok(()) => match result {
                    Ok(()) => {
                        assert((*prev)->Ok_0 == result->Ok_0);
                        true
                    },
                    Err(_) => false,
                },
                Err(a) => match result {
                    Err(b) => {
                        assert((*a == b) == (*prev == result));
                        *a == b
                    },
                    Ok(()) => false,
                },
            }
        },
        None => {
            assert(!previous@.contains_key(p.pid));
            false
        },
    };
    assert(same == !outcome_changed(p.pid, result, previous@));
    let message = if same {
        None
    } else {
        let mut m: Vec<char> = Vec::new();
        match result {
            Ok(()) => {
                push_str(&mut m, "ecooff pid=");
                push_decimal(&mut m, p.pid as u64);
                push_str(&mut m, " name=");
                push_str(&mut m, p.name.as_str());
                assert(m@ =~= attempt_message(*p, result));
            },
            Err(e) => {
                push_str(&mut m, "failed pid=");
                push_decimal(&mut m, p.pid as u64);
                push_str(&mut m, " name=");
                push_str(&mut m, p.name.as_str());
                push_str(&mut m, " error=");
                push_decimal(&mut m, e as u64);
                assert(m@ =~= attempt_message(*p, result));
            },
        }
        Some(string_of(&m))
    };
    let parent = match all.get(&p.parent) {
        Some(q) => q.name.clone(),
        None => string_of(&chars_of("—")),
    };
    let mut detail: Vec<char> = Vec::new();
    match result {
        Ok(()) => push_str(&mut detail, "已解除效能限制"),
        Err(e) => {
            push_str(&mut detail, "失败 · ");
            push_decimal(&mut detail, e as u64);
        },
    }
    let state = ProcessState {
        pid: p.pid,
        parent_pid: p.parent,
        name: p.name.clone(),
        parent: parent,
        ok: result.is_ok(),
        detail: string_of(&detail),
    };
    (message, state)
}

/// Whether `row` is the dashboard entry for an attempt on `p` with outcome
/// `result`.
pub open spec fn row_for(row: ProcessState, p: Proc, all: Map<u32, Proc>, result: Result<(), u32>) -> bool {
    &&& row.pid == p.pid
    &&& row.parent_pid == p.parent
    &&& row.name@ == p.name@
    &&& row.parent@ == parent_label(p, all)
    &&& row.ok == (result is Ok)
    &&& row.detail@ == attempt_detail(result)
}

/// The ids in `order` of the processes in the table that the rule
/// releases, in that order.
pub open spec fn released_pids(all: Map<u32, Proc>, order: Seq<u32>, rule: Rule) -> Seq<u32>
    decreases order.len(),
{
    if order.len() == 0 {
        seq![]
    } else {
        let init = released_pids(all, order.drop_last(), rule);
        let pid = order.last();
        if all.contains_key(pid) && is_matched(all[pid], all, rule) {
            init.push(pid)
        } else {
            init
        }
    }
}

/// The processes to release in a scan: the ids of `order` (the table's ids
/// in the order they are walked) whose process the rule releases.
pub fn released(all: &HashMap<u32, Proc>, order: &Vec<u32>, rule: &Rule) -> (r: Vec<u32>)
    ensures
        r@ == released_pids(all@, order@, *rule),
{
    let mut r: Vec<u32> = Vec::new();
    for i in 0..order.len()
        invariant
            r@ == released_pids(all@, order@.take(i as int), *rule),
    {
        let pid = order[i];
        assert(order@.take(i + 1).drop_last() == order@.take(i as int));
        assert(order@.take(i + 1).last() == pid);
        match all.get(&pid) {
            Some(p) => {
                if matched(p, all, rule) {
                    r.push(pid);
                }
            },
            None => {},
        }
    }
    assert(order@.take(order.len() as int) == order@);
    r
}

/// A release attempt: a process id and the outcome.
pub type Attempt = (u32, Result<(), u32>);

/// The attempts on processes that are in the table, in order.
pub open spec fn kept(all: Map<u32, Proc>, attempts: Seq<Attempt>) -> Seq<Attempt>
    decreases attempts.len(),
{
    if attempts.len() == 0 {
        seq![]
    } else {
        let init = kept(all, attempts.drop_last());
        if all.contains_key(attempts.last().0) {
            init.push(attempts.last())
        } else {
            init
        }
    }
}

/// The log messages of a scan: one for each attempt on a process in the
/// table whose outcome differs from the one the previous scan recorded for
/// that process's id, in order.
pub open spec fn step_messages(
    all: Map<u32, Proc>,
    attempts: Seq<Attempt>,
    previous: Map<u32, Result<(), u32>>,
) -> Seq<Seq<char>>
    decreases attempts.len(),
{
    if attempts.len() == 0 {
        seq![]
    } else {
        let init = step_messages(all, attempts.drop_last(), previous);
        let (pid, result) = attempts.last();
        if all.contains_key(pid) && outcome_changed(all[pid].pid, result, previous) {
            init.push(attempt_message(all[pid], result))
        } else {
            init
        }
    }
}

/// The outcomes a scan records for the next one: for each attempt on a
/// process in the table, that process's id with the outcome (a later
/// attempt on the same id wins).
pub open spec fn step_next(all: Map<u32, Proc>, attempts: Seq<Attempt>) -> Map<u32, Result<(), u32>>
    decreases attempts.len(),
{
    if attempts.len() == 0 {
        Map::empty()
    } else {
        let init = step_next(all, attempts.drop_last());
        let (pid, result) = attempts.last();
        if all.contains_key(pid) {
            init.insert(all[pid].pid, result)
        } else {
            init
        }
    }
}

/// What one scan produces from its release attempts.
pub struct ScanStep {
    /// The lines to log.
    pub messages: Vec<String>,
    /// The dashboard entries, one per attempt on a process in the table.
    pub rows: Vec<ProcessState>,
    /// The outcomes to compare the next scan with.
    pub next: HashMap<u32, Result<(), u32>>,
}

/// The bookkeeping of one scan: for each attempt on a process of the table
/// (in order), its log message when the outcome changed since `previous`,
/// its dashboard entry, and the outcomes to keep for the next scan.
pub fn scan_step(
    all: &HashMap<u32, Proc>,
    attempts: &Vec<Attempt>,
    previous: &HashMap<u32, Result<(), u32>>,
) -> (r: ScanStep)
    ensures
        views(r.messages@) == step_messages(all@, attempts@, previous@),
        r.next@ == step_next(all@, attempts@),
        r.rows@.len() == kept(all@, attempts@).len(),
        forall|i: int|
            0 <= i < r.rows@.len() ==> row_for(
                #[trigger] r.rows@[i],
                all@[kept(all@, attempts@)[i].0],
                all@,
                kept(all@, attempts@)[i].1,
            ),
{
    let mut messages: Vec<String> = Vec::new();
    let mut rows: Vec<ProcessState> = Vec::new();
    let mut next: HashMap<u32, Result<(), u32>> = HashMap::new();
    assert(views(messages@) =~= Seq::<Seq<char>>::empty());
    assert(next@ =~= Map::<u32, Result<(), u32>>::empty());
    for i in 0..attempts.len()
        invariant
            views(messages@) == step_messages(all@, attempts@.take(i as int), previous@),
            next@ == step_next(all@, attempts@.take(i as int)),
            rows@.len() == kept(all@, attempts@.take(i as int)).len(),
            forall|j: int|
                0 <= j < rows@.len() ==> row_for(
                    #[trigger] rows@[j],
                    all@[kept(all@, attempts@.take(i as int))[j].0],
                    all@,
                    kept(all@, attempts@.take(i as int))[j].1,
                ),
    {
        let (pid, result) = attempts[i];
        let ghost pre = attempts@.take(i as int);
        let ghost cur = attempts@.take(i + 1);
        assert(cur.drop_last() == pre);
        assert(cur.last() == (pid, result));
        match all.get(&pid) {
            Some(p) => {
                let (message, row) = report(p, all, result, previous);
                assert(*p == all@[pid]);
                match message {
                    Some(m) => {
                        let ghost before = views(messages@);
                        messages.push(m);
                        assert(views(messages@) == before.push(m@));
                    },
                    None => {},
                }
                let ghost old_rows = rows@;
                rows.push(row);
                next.insert(p.pid, result);
                assert(kept(all@, cur) == kept(all@, pre).push((pid, result)));
                assert forall|j: int| 0 <= j < rows@.len() implies row_for(
                    #[trigger] rows@[j],
                    all@[kept(all@, cur)[j].0],
                    all@,
                    kept(all@, cur)[j].1,
                ) by {
                    if j < old_rows.len() {
                        assert(rows@[j] == old_rows[j]);
                        assert(kept(all@, cur)[j] == kept(all@, pre)[j]);
                    }
                }
            },
            None => {},
        }
    }
    assert(attempts@.take(attempts.len() as int) == attempts@);
    ScanStep { messages, rows, next }
}

/// Whether every process of the table is filed under its own id.
pub open spec fn table_wf(all: Map<u32, Proc>) -> bool {
    forall|k: u32| #[trigger] all.contains_key(k) ==> all[k].pid == k
}

/// An outcome that has not changed is not logged again: a scan whose
/// attempts (on distinct processes of a table that files each process under
/// its id) give the outcomes the previous scan recorded logs nothing.
pub proof fn lemma_unchanged_not_logged(all: Map<u32, Proc>, attempts: Seq<Attempt>)
    requires
        table_wf(all),
        attempts.map_values(|a: Attempt| a.0).no_duplicates(),
    ensures
        step_messages(all, attempts, step_next(all, attempts)) == Seq::<Seq<char>>::empty(),
{
    let m = step_next(all, attempts);
    assert forall|i: int| 0 <= i < attempts.len() && all.contains_key(#[trigger] attempts[i].0)
        implies m.contains_key(attempts[i].0) && m[attempts[i].0] == attempts[i].1 by {
        lemma_step_next_at(all, attempts, i);
    }
    lemma_no_messages(all, attempts, m, attempts.len() as int);
    assert(attempts.take(attempts.len() as int) == attempts);
}

proof fn lemma_step_next_at(all: Map<u32, Proc>, attempts: Seq<Attempt>, i: int)
    requires
        table_wf(all),
        attempts.map_values(|a: Attempt| a.0).no_duplicates(),
        0 <= i < attempts.len(),
        all.contains_key(attempts[i].0),
    ensures
        step_next(all, attempts).contains_key(attempts[i].0),
        step_next(all, attempts)[attempts[i].0] == attempts[i].1,
    decreases attempts.len(),
{
    let ids = attempts.map_values(|a: Attempt| a.0);
    if i < attempts.len() - 1 {
        let init = attempts.drop_last();
        assert(init.map_values(|a: Attempt| a.0) =~= ids.drop_last());
        assert(init.map_values(|a: Attempt| a.0).no_duplicates()) by {
            let ids2 = init.map_values(|a: Attempt| a.0);
            assert forall|x: int, y: int| 0 <= x < ids2.len() && 0 <= y < ids2.len() && x != y
                implies ids2[x] != ids2[y] by {
                assert(ids2[x] == ids[x] && ids2[y] == ids[y]);
            }
        }
        assert(init[i] == attempts[i]);
        lemma_step_next_at(all, init, i);
        assert(ids[i] != ids[attempts.len() - 1]);
    }
}

proof fn lemma_no_messages(
    all: Map<u32, Proc>,
    attempts: Seq<Attempt>,
    m: Map<u32, Result<(), u32>>,
    n: int,
)
    requires
        table_wf(all),
        0 <= n <= attempts.len(),
        forall|i: int|
            0 <= i < attempts.len() && all.contains_key(#[trigger] attempts[i].0) ==> m.contains_key(
                attempts[i].0,
            ) && m[attempts[i].0] == attempts[i].1,
    ensures
        step_messages(all, attempts.take(n), m) == Seq::<Seq<char>>::empty(),
    decreases n,
{
    if n > 0 {
        lemma_no_messages(all, attempts, m, n - 1);
        assert(attempts.take(n).drop_last() == attempts.take(n - 1));
        assert(attempts.take(n).last() == attempts[n - 1]);
        let pid = attempts[n - 1].0;
        if all.contains_key(pid) {
            assert(all[pid].pid == pid);
            assert(m.contains_key(pid) && m[pid] == attempts[n - 1].1);
        }
    } else {
        assert(attempts.take(0).len() == 0);
    }
}

/// Every change is logged: an attempt on a process of the table whose outcome
/// differs from the one recorded for its id by the previous scan (or that has
/// no recorded outcome) yields its log message, whatever the two outcomes are
/// (a success after a failure, a failure after a success, two different
/// errors).
pub proof fn lemma_changes_logged(
    all: Map<u32, Proc>,
    attempts: Seq<Attempt>,
    previous: Map<u32, Result<(), u32>>,
    i: int,
)
    requires
        table_wf(all),
        0 <= i < attempts.len(),
        all.contains_key(attempts[i].0),
        !(previous.contains_key(attempts[i].0) && previous[attempts[i].0] == attempts[i].1),
    ensures
        step_messages(all, attempts, previous).contains(
            attempt_message(all[attempts[i].0], attempts[i].1),
        ),
    decreases attempts.len(),
{
    let init = attempts.drop_last();
    let msgs = step_messages(all, attempts, previous);
    let pre = step_messages(all, init, previous);
    let (pid, result) = attempts.last();
    if i == attempts.len() - 1 {
        assert(all[pid].pid == pid);
        assert(msgs == pre.push(attempt_message(all[pid], result)));
        assert(msgs[pre.len() as int] == attempt_message(all[pid], result));
    } else {
        assert(init[i] == attempts[i]);
        lemma_changes_logged(all, init, previous, i);
        let m = attempt_message(all[attempts[i].0], attempts[i].1);
        let q = choose|q: int| 0 <= q < pre.len() && pre[q] == m;
        if all.contains_key(pid) && outcome_changed(all[pid].pid, result, previous) {
            assert(msgs[q] == m);
        } else {
            assert(msgs[q] == m);
        }
    }
}

/// A scan logs its attempts one after the other: the log lines of two runs
/// of attempts are those of the first run followed by those of the second.
pub proof fn lemma_messages_concat(
    all: Map<u32, Proc>,
    a1: Seq<Attempt>,
    a2: Seq<Attempt>,
    previous: Map<u32, Result<(), u32>>,
)
    ensures
        step_messages(all, a1 + a2, previous) == step_messages(all, a1, previous) + step_messages(
            all,
            a2,
            previous,
        ),
    decreases a2.len(),
{
    if a2.len() == 0 {
        assert(a1 + a2 =~= a1);
        assert(step_messages(all, a1, previous) + Seq::<Seq<char>>::empty() =~= step_messages(
            all,
            a1,
            previous,
        ));
    } else {
        assert((a1 + a2).drop_last() =~= a1 + a2.drop_last());
        assert((a1 + a2).last() == a2.last());
        lemma_messages_concat(all, a1, a2.drop_last(), previous);
        let m1 = step_messages(all, a1, previous);
        let m2 = step_messages(all, a2.drop_last(), previous);
        let (pid, result) = a2.last();
        if all.contains_key(pid) && outcome_changed(all[pid].pid, result, previous) {
            assert((m1 + m2).push(attempt_message(all[pid], result)) =~= m1 + m2.push(
                attempt_message(all[pid], result),
            ));
        }
    }
}

/// One attempt is logged exactly when its process is in the table and its
/// outcome differs from the one recorded for its id by the previous scan
/// (or none is recorded); the line is then its message.
pub proof fn lemma_message_single(
    all: Map<u32, Proc>,
    a: Attempt,
    previous: Map<u32, Result<(), u32>>,
)
    requires
        table_wf(all),
    ensures
        step_messages(all, seq![a], previous) == (if all.contains_key(a.0) && !(
        previous.contains_key(a.0) && previous[a.0] == a.1) {
            seq![attempt_message(all[a.0], a.1)]
        } else {
            Seq::<Seq<char>>::empty()
        }),
{
    let s = seq![a];
    assert(s.drop_last() =~= Seq::<Attempt>::empty());
    assert(s.last() == a);
    assert(step_messages(all, s.drop_last(), previous) == Seq::<Seq<char>>::empty());
    if all.contains_key(a.0) {
        assert(all[a.0].pid == a.0);
    }
    assert(Seq::<Seq<char>>::empty().push(attempt_message(all[a.0], a.1)) =~= seq![
        attempt_message(all[a.0], a.1),
    ]);
}

/// Only changes are logged: each log line of a scan is the message of an
/// attempt on a process of the table whose outcome differs from the one the
/// previous scan recorded for its id.
pub proof fn lemma_logged_only_changes(
    all: Map<u32, Proc>,
    attempts: Seq<Attempt>,
    previous: Map<u32, Result<(), u32>>,
    k: int,
)
    requires
        table_wf(all),
        0 <= k < step_messages(all, attempts, previous).len(),
    ensures
        exists|i: int|
            0 <= i < attempts.len() && #[trigger] all.contains_key(attempts[i].0) && !(
            previous.contains_key(attempts[i].0) && previous[attempts[i].0] == attempts[i].1)
                && step_messages(all, attempts, previous)[k] == attempt_message(
                all[attempts[i].0],
                attempts[i].1,
            ),
    decreases attempts.len(),
{
    let init = attempts.drop_last();
    let msgs = step_messages(all, attempts, previous);
    let pre = step_messages(all, init, previous);
    let n: int = attempts.len() - 1;
    let (pid, result) = attempts.last();
    if k < pre.len() {
        lemma_logged_only_changes(all, init, previous, k);
        let i = choose|i: int|
            0 <= i < init.len() && #[trigger] all.contains_key(init[i].0) && !(
            previous.contains_key(init[i].0) && previous[init[i].0] == init[i].1)
                && pre[k] == attempt_message(all[init[i].0], init[i].1);
        assert(init[i] == attempts[i]);
        assert(msgs[k] == pre[k]);
        assert(all.contains_key(attempts[i].0));
    } else {
        assert(all.contains_key(pid) && outcome_changed(all[pid].pid, result, previous));
        assert(all[pid].pid == pid);
        assert(attempts[n] == attempts.last());
        assert(msgs[k] == attempt_message(all[pid], result));
        assert(all.contains_key(attempts[n].0));
    }
}

/// The process ids of a list of dashboard entries.
pub open spec fn pids(rows: Seq<ProcessState>) -> Seq<u32> {
    rows.map_values(|r: ProcessState| r.pid)
}

/// Whether `order` walks the table: each id of the table exactly once.
pub open spec fn walks_table(all: Map<u32, Proc>, order: Seq<u32>) -> bool {
    order.no_duplicates() && order.to_set() == all.dom()
}

proof fn lemma_released_prefix(all: Map<u32, Proc>, order: Seq<u32>, rule: Rule)
    requires
        order.no_duplicates(),
    ensures
        released_pids(all, order, rule).no_duplicates(),
        forall|q: u32| #[trigger]
            released_pids(all, order, rule).contains(q) <==> (order.contains(q) && all.contains_key(q)
                && is_matched(all[q], all, rule)),
    decreases order.len(),
{
    if order.len() > 0 {
        let init = order.drop_last();
        let last = order.last();
        assert(init.no_duplicates()) by {
            assert forall|i: int, j: int| 0 <= i < init.len() && 0 <= j < init.len() && i != j
                implies init[i] != init[j] by {
                assert(init[i] == order[i] && init[j] == order[j]);
            }
        }
        lemma_released_prefix(all, init, rule);
        let rp = released_pids(all, init, rule);
        assert(!init.contains(last)) by {
            if init.contains(last) {
                let k = choose|k: int| 0 <= k < init.len() && init[k] == last;
                assert(order[k] == order[order.len() - 1]);
            }
        }
        assert forall|q: u32| #[trigger] order.contains(q) <==> (init.contains(q) || q == last) by {
            if order.contains(q) && q != last {
                let k = choose|k: int| 0 <= k < order.len() && order[k] == q;
                assert(init[k] == q);
            }
            if init.contains(q) {
                let k = choose|k: int| 0 <= k < init.len() && init[k] == q;
                assert(order[k] == q);
            }
            if q == last {
                assert(order[order.len() - 1] == q);
            }
        }
        if all.contains_key(last) && is_matched(all[last], all, rule) {
            crate::names::lemma_push_keeps_distinct(rp, last);
            assert forall|q: u32| #[trigger] rp.push(last).contains(q) <==> (rp.contains(q) || q
                == last) by {
                if rp.push(last).contains(q) && q != last {
                    let k = choose|k: int| 0 <= k < rp.push(last).len() && rp.push(last)[k] == q;
                    assert(rp[k] == q);
                }
                if rp.contains(q) {
                    let k = choose|k: int| 0 <= k < rp.len() && rp[k] == q;
                    assert(rp.push(last)[k] == q);
                }
                if q == last {
                    assert(rp.push(last)[rp.len() as int] == q);
                }
            }
        }
    }
}

/// Walking a table once releases each process that the rule releases
/// exactly once: the released ids hold no id twice and are exactly the ids
/// of the table whose process the rule releases.
pub proof fn lemma_released_once(all: Map<u32, Proc>, order: Seq<u32>, rule: Rule)
    requires
        walks_table(all, order),
    ensures
        released_pids(all, order, rule).no_duplicates(),
        forall|q: u32| #[trigger]
            released_pids(all, order, rule).contains(q) <==> (all.contains_key(q) && is_matched(
                all[q],
                all,
                rule,
            )),
{
    lemma_released_prefix(all, order, rule);
    assert forall|q: u32| #[trigger] order.contains(q) <==> all.contains_key(q) by {
        assert(order.to_set().contains(q) == order.contains(q));
    }
}

proof fn lemma_kept_all(all: Map<u32, Proc>, attempts: Seq<Attempt>)
    requires
        forall|i: int| 0 <= i < attempts.len() ==> all.contains_key(#[trigger] attempts[i].0),
    ensures
        kept(all, attempts) == attempts,
    decreases attempts.len(),
{
    if attempts.len() > 0 {
        let init = attempts.drop_last();
        assert forall|i: int| 0 <= i < init.len() implies all.contains_key(#[trigger] init[i].0) by {
            assert(init[i] == attempts[i]);
        }
        lemma_kept_all(all, init);
        assert(all.contains_key(attempts[attempts.len() - 1].0));
        assert(init.push(attempts.last()) =~= attempts);
    } else {
        assert(attempts =~= Seq::<Attempt>::empty());
    }
}

/// One scan lists each released process exactly once: when the walk order
/// covers the table once and the attempts are made on the released ids in
/// that order, the entries `scan_step` gives (in any order, such as
/// `ScanState::new` puts them in) hold no process id twice, hold exactly the
/// ids of the table whose process the rule releases, and each is the entry
/// for its process with the outcome of the attempt on it.
pub proof fn lemma_scan_lists_released(
    all: Map<u32, Proc>,
    order: Seq<u32>,
    rule: Rule,
    attempts: Seq<Attempt>,
    rows: Seq<ProcessState>,
    shown: Seq<ProcessState>,
)
    requires
        table_wf(all),
        walks_table(all, order),
        attempts.map_values(|a: Attempt| a.0) == released_pids(all, order, rule),
        rows.len() == kept(all, attempts).len(),
        forall|i: int|
            0 <= i < rows.len() ==> row_for(
                #[trigger] rows[i],
                all[kept(all, attempts)[i].0],
                all,
                kept(all, attempts)[i].1,
            ),
        shown.to_multiset() == rows.to_multiset(),
    ensures
        pids(shown).no_duplicates(),
        forall|q: u32| #[trigger]
            pids(shown).contains(q) <==> (all.contains_key(q) && is_matched(all[q], all, rule)),
        forall|i: int|
            0 <= i < shown.len() ==> exists|k: int|
                0 <= k < attempts.len() && attempts[k].0 == (#[trigger] shown[i]).pid && row_for(
                    shown[i],
                    all[shown[i].pid],
                    all,
                    attempts[k].1,
                ),
{
    broadcast use vstd::seq_lib::group_to_multiset_ensures;

    let ids = attempts.map_values(|a: Attempt| a.0);
    lemma_released_once(all, order, rule);
    assert forall|i: int| 0 <= i < attempts.len() implies all.contains_key(#[trigger] attempts[i].0) by {
        assert(ids[i] == attempts[i].0);
        assert(ids.contains(ids[i]));
    }
    lemma_kept_all(all, attempts);
    // the entries carry the released ids, in the attempts' order
    assert(pids(rows) =~= ids) by {
        assert forall|i: int| 0 <= i < rows.len() implies pids(rows)[i] == ids[i] by {
            assert(row_for(rows[i], all[attempts[i].0], all, attempts[i].1));
        }
    }
    assert(rows.no_duplicates()) by {
        assert forall|i: int, j: int| 0 <= i < rows.len() && 0 <= j < rows.len() && i != j
            implies rows[i] != rows[j] by {
            assert(pids(rows)[i] == rows[i].pid && pids(rows)[j] == rows[j].pid);
        }
    }
    rows.lemma_multiset_has_no_duplicates();
    shown.lemma_multiset_has_no_duplicates_conv();
    assert forall|x: ProcessState| #[trigger] shown.contains(x) <==> rows.contains(x) by {
        vstd::seq_lib::to_multiset_contains(shown, x);
        vstd::seq_lib::to_multiset_contains(rows, x);
        assert(shown.to_multiset().count(x) == rows.to_multiset().count(x));
    }
    assert(pids(shown).no_duplicates()) by {
        assert forall|i: int, j: int| 0 <= i < shown.len() && 0 <= j < shown.len() && i != j
            implies pids(shown)[i] != pids(shown)[j] by {
            assert(shown.contains(shown[i]) && shown.contains(shown[j]));
            let a = choose|a: int| 0 <= a < rows.len() && rows[a] == shown[i];
            let b = choose|b: int| 0 <= b < rows.len() && rows[b] == shown[j];
            assert(pids(rows)[a] == rows[a].pid && pids(rows)[b] == rows[b].pid);
        }
    }
    assert forall|q: u32| #[trigger] pids(shown).contains(q) <==> pids(rows).contains(q) by {
        if pids(shown).contains(q) {
            let i = choose|i: int| 0 <= i < pids(shown).len() && pids(shown)[i] == q;
            assert(shown.contains(shown[i]));
            let a = choose|a: int| 0 <= a < rows.len() && rows[a] == shown[i];
            assert(pids(rows)[a] == q);
        }
        if pids(rows).contains(q) {
            let a = choose|a: int| 0 <= a < pids(rows).len() && pids(rows)[a] == q;
            assert(rows.contains(rows[a]));
            assert(shown.contains(rows[a]));
            let i = choose|i: int| 0 <= i < shown.len() && shown[i] == rows[a];
            assert(pids(shown)[i] == q);
        }
    }
    assert forall|i: int| 0 <= i < shown.len() implies exists|k: int|
        0 <= k < attempts.len() && attempts[k].0 == (#[trigger] shown[i]).pid && row_for(
            shown[i],
            all[shown[i].pid],
            all,
            attempts[k].1,
        ) by {
        assert(shown.contains(shown[i]));
        let a = choose|a: int| 0 <= a < rows.len() && rows[a] == shown[i];
        assert(row_for(rows[a], all[attempts[a].0], all, attempts[a].1));
        assert(pids(rows)[a] == ids[a]);
    }
}

/// The order of the dashboard list: by name, then by process id.
pub open spec fn listed_before(a: ProcessState, b: ProcessState) -> bool {
    chars_lt(a.name@, b.name@) || (a.name@ == b.name@ && a.pid <= b.pid)
}

/// Whether a list is in dashboard order.
pub open spec fn in_list_order(s: Seq<ProcessState>) -> bool {
    forall|i: int, j: int| 0 <= i < j < s.len() ==> listed_before(#[trigger] s[i], #[trigger] s[j])
}

/// The dashboard list is ordered by name in lexicographic order (the first
/// differing character decides by code point, a proper prefix first, whatever
/// the lengths), and entries with the same name by process id.
pub proof fn lemma_list_order_by_name(s: Seq<ProcessState>, i: int, j: int)
    requires
        in_list_order(s),
        0 <= i < j < s.len(),
    ensures
        differs_first_below(s[i].name@, s[j].name@) || s[i].name@ == s[j].name@,
        s[i].name@ == s[j].name@ ==> s[i].pid <= s[j].pid,
        !differs_first_below(s[j].name@, s[i].name@),
{
    assert(listed_before(s[i], s[j]));
    lemma_chars_lt_first_difference(s[i].name@, s[j].name@);
    lemma_chars_lt_first_difference(s[j].name@, s[i].name@);
    if chars_lt(s[i].name@, s[j].name@) {
        crate::names::lemma_chars_lt_asymmetric(s[i].name@, s[j].name@);
    } else {
        crate::names::lemma_chars_lt_irreflexive(s[i].name@);
    }
}

/// Whether `a` goes strictly after `b`.
fn goes_after(a: &ProcessState, b: &ProcessState) -> (r: bool)
    ensures
        r == !listed_before(*a, *b),
{
    let an = chars_of(a.name.as_str());
    let bn = chars_of(b.name.as_str());
    if chars_less(&an, &bn) {
        false
    } else if chars_less(&bn, &an) {
        proof {
            crate::names::lemma_chars_lt_asymmetric(bn@, an@);
        }
        assert(an@ != bn@) by {
            if an@ == bn@ {
                crate::names::lemma_chars_lt_irreflexive(an@);
            }
        }
        true
    } else {
        proof {
            if an@ != bn@ {
                crate::names::lemma_chars_lt_total(an@, bn@);
            }
        }
        a.pid > b.pid
    }
}

proof fn lemma_listed_before_total(a: ProcessState, b: ProcessState)
    ensures
        listed_before(a, b) || listed_before(b, a),
{
    if a.name@ != b.name@ {
        crate::names::lemma_chars_lt_total(a.name@, b.name@);
    }
}

proof fn lemma_listed_before_transitive(a: ProcessState, b: ProcessState, c: ProcessState)
    requires
        listed_before(a, b),
        listed_before(b, c),
    ensures
        listed_before(a, c),
{
    if chars_lt(a.name@, b.name@) && chars_lt(b.name@, c.name@) {
        crate::names::lemma_chars_lt_transitive(a.name@, b.name@, c.name@);
    }
}

/// The processes in dashboard order (by name, then id): the same entries,
/// sorted.
pub fn sort_processes(shown: Vec<ProcessState>) -> (r: Vec<ProcessState>)
    ensures
        r@.to_multiset() == shown@.to_multiset(),
        in_list_order(r@),
{
    broadcast use vstd::seq_lib::group_to_multiset_ensures;

    let mut rest = shown;
    let ghost all = rest@;
    let mut out: Vec<ProcessState> = Vec::new();
    while rest.len() > 0
        invariant
            all.to_multiset() == rest@.to_multiset().add(out@.to_multiset()),
            in_list_order(out@),
        decreases rest.len(),
    {
        let ghost before = rest@;
        let x = rest.pop().unwrap();
        assert(before =~= rest@.push(x));
        let mut p: usize = 0;
        while p < out.len() && !goes_after(&out[p], &x)
            invariant
                0 <= p <= out.len(),
                forall|q: int| 0 <= q < p ==> listed_before(#[trigger] out@[q], x),
            decreases out.len() - p,
        {
            p += 1;
        }
        let ghost o = out@;
        assert forall|q: int| p <= q < o.len() implies listed_before(x, #[trigger] o[q]) by {
            lemma_listed_before_total(o[p as int], x);
            if q > p {
                lemma_listed_before_transitive(x, o[p as int], o[q]);
            }
        }
        out.insert(p, x);
        assert(out@ == o.insert(p as int, x));
        assert(in_list_order(out@)) by {
            let n = out@;
            assert forall|a: int, b: int| 0 <= a < b < n.len() implies listed_before(
                #[trigger] n[a],
                #[trigger] n[b],
            ) by {
                if a < p && b < p {
                    assert(n[a] == o[a] && n[b] == o[b]);
                } else if a < p && b == p {
                } else if a < p {
                    assert(n[a] == o[a] && n[b] == o[b - 1]);
                    lemma_listed_before_transitive(o[a], x, o[b - 1]);
                } else if a == p {
                    assert(n[b] == o[b - 1]);
                } else {
                    assert(n[a] == o[a - 1] && n[b] == o[b - 1]);
                }
            }
        }
        proof {
            vstd::seq_lib::to_multiset_insert(o, p as int, x);
            vstd::seq_lib::to_multiset_build(rest@, x);
            assert(before.to_multiset() == rest@.to_multiset().insert(x));
        }
        assert(all.to_multiset() =~= rest@.to_multiset().add(out@.to_multiset()));
    }
    assert(rest@.to_multiset() =~= vstd::multiset::Multiset::empty());
    assert(all.to_multiset() =~= out@.to_multiset());
    out
}

impl ScanState {
    /// The state of a finished scan: its time, how many processes were
    /// seen, and the released processes in dashboard order.
    pub fn new(last_scan: String, scanned: usize, shown: Vec<ProcessState>) -> (r: ScanState)
        ensures
            r.last_scan == last_scan,
            r.scanned == scanned,
            r.processes@.to_multiset() == shown@.to_multiset(),
            in_list_order(r.processes@),
    {
        ScanState { last_scan: last_scan, scanned: scanned, processes: sort_processes(shown) }
    }
}

/// `YYYY-MM-DD hh:mm:ss`, each field in decimal padded with zeros.
pub open spec fn timestamp_text(
    year: u16,
    month: u16,
    day: u16,
    hour: u16,
    minute: u16,
    second: u16,
) -> Seq<char> {
    padded(year as nat, 4) + "-"@ + padded(month as nat, 2) + "-"@ + padded(day as nat, 2) + " "@
        + padded(hour as nat, 2) + ":"@ + padded(minute as nat, 2) + ":"@ + padded(second as nat, 2)
}

/// Formats a local time as `YYYY-MM-DD hh:mm:ss`.
pub fn format_timestamp(
    year: u16,
    month: u16,
    day: u16,
    hour: u16,
    minute: u16,
    second: u16,
) -> (r: String)
    ensures
        r@ == timestamp_text(year, month, day, hour, minute, second),
{
    let mut v = padded_chars(year as u64, 4);
    push_str(&mut v, "-");
    append_chars(&mut v, &padded_chars(month as u64, 2));
    push_str(&mut v, "-");
    append_chars(&mut v, &padded_chars(day as u64, 2));
    push_str(&mut v, " ");
    append_chars(&mut v, &padded_chars(hour as u64, 2));
    push_str(&mut v, ":");
    append_chars(&mut v, &padded_chars(minute as u64, 2));
    push_str(&mut v, ":");
    append_chars(&mut v, &padded_chars(second as u64, 2));
    string_of(&v)
}

/// A log line: the time in brackets, a space and the message.
pub fn log_entry(time: &str, message: &str) -> (r: String)
    ensures
        r@ == "["@ + time@ + "] "@ + message@,
{
    let mut v = chars_of("[");
    push_str(&mut v, time);
    push_str(&mut v, "] ");
    push_str(&mut v, message);
    string_of(&v)
}

/// Everything the dashboard shows.
pub struct Dashboard {
    pub active: bool,
    pub last_scan: String,
    pub scanned: usize,
    pub processes: Vec<ProcessState>,
    pub config: EditableConfig,
    pub logs: Vec<String>,
    pub config_path: String,
    pub log_path: String,
}

impl Dashboard {
    /// The dashboard for the last scan, the current configuration (in its
    /// editable form) and the last log lines.
    pub fn new(
        scan: ScanState,
        config: &Config,
        logs: Vec<String>,
        config_path: String,
        log_path: String,
    ) -> (r: Dashboard)
        ensures
            r.active,
            r.last_scan == scan.last_scan,
            r.scanned == scan.scanned,
            r.processes == scan.processes,
            lists_config(r.config@, config@),
            r.logs == logs,
            r.config_path == config_path,
            r.log_path == log_path,
    {
        Dashboard {
            active: true,
            last_scan: scan.last_scan,
            scanned: scan.scanned,
            processes: scan.processes,
            config: EditableConfig::from(config),
            logs: logs,
            config_path: config_path,
            log_path: log_path,
        }
    }
}

} // verus!

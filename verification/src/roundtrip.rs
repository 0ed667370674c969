//! What the configuration writer, reader and the checks before saving
//! promise together: written settings read back as written, and lists
//! written by hand over several lines are read with all their names.
use vstd::prelude::*;
use crate::names::{lemma_chars_lt_irreflexive, strictly_sorted};
use crate::rule::{
    apply_entry, checked_config, checked_names, cleaned, config_lines, default_model, forbidden,
    formatted, gather, has_forbidden, item_line, list_lines, lists_config, lowered, lowers,
    opens_list, parse_from, parsed, quote_run, quote_start, quote_step, quoted_items, terminated,
    ConfigModel, EditableModel, QuoteScan,
};
use crate::text::{
    decimal, find, is_digit, is_ws, lemma_decimal_parse, lemma_find, lemma_find_shift,
    lemma_parse_decimal, lines, lower, lower_char, strip_cr, trim, trim_end, trim_start,
};

verus! {

// ---------------------------------------------------------------------------
// Sequences
// ---------------------------------------------------------------------------
proof fn lemma_contains_concat<A>(a: Seq<A>, b: Seq<A>, x: A)
    ensures
        (a + b).contains(x) <==> (a.contains(x) || b.contains(x)),
{
    if (a + b).contains(x) {
        let q = choose|q: int| 0 <= q < (a + b).len() && (a + b)[q] == x;
        if q < a.len() {
            assert(a[q] == x);
        } else {
            assert(b[q - a.len()] == x);
        }
    }
    if a.contains(x) {
        let q = choose|q: int| 0 <= q < a.len() && a[q] == x;
        assert((a + b)[q] == x);
    }
    if b.contains(x) {
        let q = choose|q: int| 0 <= q < b.len() && b[q] == x;
        assert((a + b)[a.len() + q] == x);
    }
}

/// A string without `c` has no first `c`.
proof fn lemma_find_absent(s: Seq<char>, c: char)
    requires
        !s.contains(c),
    ensures
        find(s, c) == s.len(),
{
    lemma_find(s, c);
}

// ---------------------------------------------------------------------------
// Lines
// ---------------------------------------------------------------------------
/// Whether a line survives the trip through a text unchanged.
pub open spec fn simple_line(l: Seq<char>) -> bool {
    !l.contains('\n') && strip_cr(l) == l
}

/// Splitting lines that were each ended by a line feed gives them back.
pub proof fn lemma_lines_terminated(ls: Seq<Seq<char>>)
    requires
        forall|i: int| 0 <= i < ls.len() ==> simple_line(#[trigger] ls[i]),
    ensures
        lines(terminated(ls)) == ls,
    decreases ls.len(),
{
    if ls.len() > 0 {
        let rest = terminated(ls.drop_first());
        let t = terminated(ls);
        let l0 = ls[0];
        assert(t == l0 + (seq!['\n'] + rest));
        assert(simple_line(ls[0]));
        lemma_find_shift(l0, seq!['\n'] + rest, '\n');
        assert((seq!['\n'] + rest)[0] == '\n');
        assert(find(seq!['\n'] + rest, '\n') == 0);
        assert(t.take(l0.len() as int) == l0);
        assert(t.skip(l0.len() + 1int) == rest);
        assert forall|i: int| 0 <= i < ls.drop_first().len() implies simple_line(
            #[trigger] ls.drop_first()[i],
        ) by {
            assert(simple_line(ls[i + 1]));
        }
        lemma_lines_terminated(ls.drop_first());
        assert(lines(t) == seq![l0] + ls.drop_first());
        assert(ls =~= seq![l0] + ls.drop_first());
    } else {
        assert(terminated(ls).len() == 0);
        assert(ls =~= Seq::<Seq<char>>::empty());
    }
}

// ---------------------------------------------------------------------------
// Trimming
// ---------------------------------------------------------------------------
proof fn lemma_trim_start_fixed(s: Seq<char>)
    requires
        s.len() == 0 || !is_ws(s[0]),
    ensures
        trim_start(s) == s,
{
}

proof fn lemma_trim_end_fixed(s: Seq<char>)
    requires
        s.len() == 0 || !is_ws(s.last()),
    ensures
        trim_end(s) == s,
{
}

/// A string that starts and ends with non-whitespace is its own trim.
proof fn lemma_trim_fixed(s: Seq<char>)
    requires
        s.len() > 0,
        !is_ws(s[0]),
        !is_ws(s.last()),
    ensures
        trim(s) == s,
{
    lemma_trim_start_fixed(s);
    lemma_trim_end_fixed(s);
}

// ---------------------------------------------------------------------------
// The quote scanner
// ---------------------------------------------------------------------------
/// Scanning `a + b` is scanning `a`, then `b`.
pub proof fn lemma_quote_concat(st: QuoteScan, a: Seq<char>, b: Seq<char>)
    ensures
        quote_run(st, a + b) == quote_run(quote_run(st, a), b),
    decreases b.len(),
{
    if b.len() == 0 {
        assert(a + b == a);
    } else {
        assert((a + b).drop_last() == a + b.drop_last());
        assert((a + b).last() == b.last());
        lemma_quote_concat(st, a, b.drop_last());
    }
}

/// The scanner in its resting state (outside quotes).
pub open spec fn resting(out: Seq<Seq<char>>) -> QuoteScan {
    QuoteScan { out: out, current: seq![], quoted: false, escape: false }
}

/// Outside quotes, text without a quote changes nothing.
proof fn lemma_quote_ignored(out: Seq<Seq<char>>, s: Seq<char>)
    requires
        !s.contains('"'),
    ensures
        quote_run(resting(out), s) == resting(out),
    decreases s.len(),
{
    if s.len() > 0 {
        assert(!s.drop_last().contains('"')) by {
            if s.drop_last().contains('"') {
                let q = choose|q: int| 0 <= q < s.drop_last().len() && s.drop_last()[q] == '"';
                assert(s[q] == '"');
            }
        }
        assert(s.contains(s.last()));
        lemma_quote_ignored(out, s.drop_last());
    }
}

/// Inside quotes, text without quote or backslash is collected.
proof fn lemma_quote_collect(st: QuoteScan, x: Seq<char>)
    requires
        st.quoted,
        !st.escape,
        !x.contains('"'),
        !x.contains('\\'),
    ensures
        quote_run(st, x) == (QuoteScan { current: st.current + x, ..st }),
    decreases x.len(),
{
    if x.len() == 0 {
        assert(st.current + x == st.current);
    } else {
        assert(!x.drop_last().contains('"') && !x.drop_last().contains('\\')) by {
            if x.drop_last().contains('"') {
                let q = choose|q: int| 0 <= q < x.drop_last().len() && x.drop_last()[q] == '"';
                assert(x[q] == '"');
            }
            if x.drop_last().contains('\\') {
                let q = choose|q: int| 0 <= q < x.drop_last().len() && x.drop_last()[q] == '\\';
                assert(x[q] == '\\');
            }
        }
        assert(x.contains(x.last()));
        lemma_quote_collect(st, x.drop_last());
        assert(st.current + x.drop_last() + seq![x.last()] == st.current + x) by {
            assert(x == x.drop_last().push(x.last()));
        }
        assert((st.current + x.drop_last()).push(x.last()) =~= st.current + x);
    }
}

/// A name as one list item holds it: in double quotes and followed by a
/// comma.
pub open spec fn quoted_item(x: Seq<char>) -> Seq<char> {
    "\""@ + x + "\","@
}

/// A name that the configuration file holds unchanged: no double quote,
/// backslash, `#`, `]` or line feed.
pub open spec fn plain_name(n: Seq<char>) -> bool {
    !n.contains('"') && !n.contains('\\') && !n.contains('#') && !n.contains(']') && !n.contains(
        '\n',
    )
}

/// Whether every name of a list is plain.
pub open spec fn plain_names(s: Seq<Seq<char>>) -> bool {
    forall|i: int| 0 <= i < s.len() ==> plain_name(#[trigger] s[i])
}

/// A line feed and one quoted item add the item to the scanner's output.
proof fn lemma_quote_item(out: Seq<Seq<char>>, x: Seq<char>)
    requires
        plain_name(x),
    ensures
        quote_run(resting(out), seq!['\n'] + quoted_item(x)) == resting(out.push(x)),
{
    reveal_strlit("\"");
    reveal_strlit("\",");
    let q1: Seq<char> = seq!['"'];
    let q2: Seq<char> = seq!['"', ','];
    assert("\""@ == q1);
    assert("\","@ == q2);
    let nl: Seq<char> = seq!['\n'];
    assert(nl + quoted_item(x) == nl + q1 + x + q2) by {
        assert(nl + (q1 + x + q2) =~= nl + q1 + x + q2);
    }
    let s0 = resting(out);
    lemma_quote_concat(s0, nl + q1 + x, q2);
    lemma_quote_concat(s0, nl + q1, x);
    lemma_quote_concat(s0, nl, q1);
    assert(!nl.contains('"')) by {
        assert(nl[0] != '"');
    }
    lemma_quote_ignored(out, nl);
    assert(q1.drop_last() =~= Seq::<char>::empty());
    assert(q1.last() == '"');
    let s1 = quote_run(s0, q1);
    assert(quote_run(s0, q1.drop_last()) == s0);
    assert(s1 == quote_step(s0, '"'));
    assert(s1 == QuoteScan { quoted: true, ..s0 });
    lemma_quote_collect(s1, x);
    let s2 = quote_run(s1, x);
    assert(s2 == QuoteScan { current: x, quoted: true, ..s0 }) by {
        assert(s0.current + x =~= x);
    }
    assert(q2.drop_last() =~= q1);
    assert(q2.last() == ',');
    assert(quote_run(s2, q1) == quote_step(quote_run(s2, q1.drop_last()), '"'));
    assert(quote_run(s2, q1.drop_last()) == s2);
    assert(quote_run(s2, q1) == resting(out.push(x)));
    assert(quote_run(s2, q2) == quote_step(quote_run(s2, q1), ','));
    assert(quote_run(s2, q2) == resting(out.push(x)));
}

/// The value of a list before its closing line: `[`, then for each item a
/// line feed and the quoted item.
pub open spec fn list_body(items: Seq<Seq<char>>) -> Seq<char>
    decreases items.len(),
{
    if items.len() == 0 {
        "["@
    } else {
        list_body(items.drop_last()) + seq!['\n'] + quoted_item(items.last())
    }
}

/// Scanning a list body yields its items.
proof fn lemma_quote_body(items: Seq<Seq<char>>)
    requires
        plain_names(items),
    ensures
        quote_run(quote_start(), list_body(items)) == resting(items),
    decreases items.len(),
{
    if items.len() == 0 {
        reveal_strlit("[");
        assert("["@[0] == '[');
        assert(!"["@.contains('"')) by {
            assert("["@.len() == 1);
        }
        lemma_quote_ignored(seq![], "["@);
        assert(quote_start() == resting(seq![]));
        assert(items =~= Seq::<Seq<char>>::empty());
    } else {
        let init = items.drop_last();
        assert(plain_names(init)) by {
            assert forall|i: int| 0 <= i < init.len() implies plain_name(#[trigger] init[i]) by {
                assert(plain_name(items[i]));
            }
        }
        lemma_quote_body(init);
        assert(plain_name(items[items.len() - 1]));
        lemma_quote_concat(quote_start(), list_body(init), seq!['\n'] + quoted_item(items.last()));
        assert(list_body(items) == list_body(init) + (seq!['\n'] + quoted_item(items.last()))) by {
            assert(list_body(init) + seq!['\n'] + quoted_item(items.last()) =~= list_body(init) + (
            seq!['\n'] + quoted_item(items.last())));
        }
        lemma_quote_item(init, items.last());
        assert(init.push(items.last()) =~= items);
    }
}

// ---------------------------------------------------------------------------
// The lines of the configuration file, one kind at a time
// ---------------------------------------------------------------------------
/// The keys under which the three lists are written.
pub open spec fn list_key(name: Seq<char>) -> bool {
    name == "allow"@ || name == "allow_parent"@ || name == "deny"@
}

proof fn lemma_list_key(name: Seq<char>)
    requires
        list_key(name),
    ensures
        name.len() > 0,
        !name.contains('#'),
        !name.contains('='),
        !name.contains('\n'),
        !name.contains('"'),
        !name.contains(']'),
        !is_ws(name[0]),
        !is_ws(name.last()),
        name != "scan_interval_secs"@,
        "allow"@ != "allow_parent"@,
        "allow"@ != "deny"@,
        "allow_parent"@ != "deny"@,
{
    reveal_strlit("allow");
    reveal_strlit("allow_parent");
    reveal_strlit("deny");
    reveal_strlit("scan_interval_secs");
    assert("allow"@.len() == 5);
    assert("allow_parent"@.len() == 12);
    assert("deny"@.len() == 4);
    assert("scan_interval_secs"@.len() == 18);
    if name == "allow"@ {
        assert(name =~= seq!['a', 'l', 'l', 'o', 'w']);
    } else if name == "allow_parent"@ {
        assert(name =~= seq!['a', 'l', 'l', 'o', 'w', '_', 'p', 'a', 'r', 'e', 'n', 't']);
    } else {
        assert(name =~= seq!['d', 'e', 'n', 'y']);
    }
}

/// What a list adds to the configuration read so far.
pub open spec fn list_effect(m: ConfigModel, name: Seq<char>, items: Seq<Seq<char>>) -> ConfigModel {
    if name == "allow"@ {
        ConfigModel { allow_name: m.allow_name + lowered(items), ..m }
    } else if name == "allow_parent"@ {
        ConfigModel { allow_parent: m.allow_parent + lowered(items), ..m }
    } else {
        ConfigModel { deny_name: m.deny_name + lowered(items), ..m }
    }
}

/// The first line of a list, `name = [` or `name = []`, splits into the
/// key and the value `[` or `[]`.
proof fn lemma_list_head(name: Seq<char>, tail: Seq<char>, v: Seq<char>)
    requires
        list_key(name),
        (tail == " = []"@ && v == "[]"@) || (tail == " = ["@ && v == "["@),
    ensures
        cleaned(name + tail) == name + tail,
        find(name + tail, '=') == name.len() + 1,
        trim((name + tail).take(name.len() + 1int)) == name,
        trim((name + tail).skip(name.len() + 2int)) == v,
        simple_line(name + tail),
        v.len() > 0 && v[0] == '[',
{
    lemma_list_key(name);
    reveal_strlit(" = []");
    reveal_strlit(" = [");
    reveal_strlit("[]");
    reveal_strlit("[");
    let s = name + tail;
    if tail == " = []"@ {
        assert(tail =~= seq![' ', '=', ' ', '[', ']']);
        assert(v =~= seq!['[', ']']);
    } else {
        assert(tail =~= seq![' ', '=', ' ', '[']);
        assert(v =~= seq!['[']);
    }
    assert(!tail.contains('#') && !tail.contains('\n'));
    lemma_contains_concat(name, tail, '#');
    lemma_contains_concat(name, tail, '\n');
    lemma_find_absent(s, '#');
    assert(s.take(s.len() as int) == s);
    assert(s[0] == name[0]);
    assert(s.last() == tail.last());
    lemma_trim_fixed(s);
    lemma_find_shift(name, tail, '=');
    assert(find(tail, '=') == 1) by {
        reveal_with_fuel(find, 3);
    }
    let k = s.take(name.len() + 1int);
    assert(k.drop_last() =~= name);
    assert(k.last() == ' ');
    lemma_trim_start_fixed(k);
    lemma_trim_end_fixed(name);
    assert(trim_end(k) == trim_end(name));
    let w = s.skip(name.len() + 2int);
    assert(w =~= tail.skip(2));
    assert(w[0] == ' ');
    assert(w.drop_first() =~= v);
    lemma_trim_start_fixed(v);
    lemma_trim_end_fixed(v);
}

/// An item line is read back as the quoted item.
proof fn lemma_item_line(x: Seq<char>)
    requires
        plain_name(x),
    ensures
        cleaned(item_line(x)) == quoted_item(x),
        simple_line(item_line(x)),
        !quoted_item(x).contains(']'),
{
    reveal_strlit("  \"");
    reveal_strlit("\",");
    reveal_strlit("\"");
    let a: Seq<char> = seq![' ', ' ', '"'];
    let b: Seq<char> = seq!['"', ','];
    let q: Seq<char> = seq!['"'];
    assert("  \""@ == a);
    assert("\","@ == b);
    assert("\""@ == q);
    let s = item_line(x);
    assert(!a.contains('#') && !b.contains('#') && !a.contains('\n') && !b.contains('\n'));
    assert(!q.contains(']') && !b.contains(']'));
    lemma_contains_concat(a, x, '#');
    lemma_contains_concat(a + x, b, '#');
    lemma_contains_concat(a, x, '\n');
    lemma_contains_concat(a + x, b, '\n');
    lemma_contains_concat(q, x, ']');
    lemma_contains_concat(q + x, b, ']');
    lemma_find_absent(s, '#');
    assert(s.take(s.len() as int) == s);
    assert(s.skip(2) =~= quoted_item(x));
    assert(s.drop_first().drop_first() =~= s.skip(2));
    assert(s[0] == ' ' && s.drop_first()[0] == ' ');
    let t = quoted_item(x);
    assert(t[0] == '"');
    lemma_trim_start_fixed(t);
    assert(is_ws(s[0]));
    assert(trim_start(s) == trim_start(s.drop_first()));
    assert(is_ws(s.drop_first()[0]));
    assert(trim_start(s.drop_first()) == trim_start(s.drop_first().drop_first()));
    assert(trim_start(s) == t);
    assert(t.last() == ',');
    lemma_trim_end_fixed(t);
    assert(s.last() == ',');
}

/// The closing line of a list.
proof fn lemma_close_line()
    ensures
        cleaned("]"@) == "]"@,
        simple_line("]"@),
        "]"@.contains(']'),
{
    reveal_strlit("]");
    let s: Seq<char> = seq![']'];
    assert("]"@ == s);
    assert(!s.contains('#') && !s.contains('\n'));
    lemma_find_absent(s, '#');
    assert(s.take(1) == s);
    lemma_trim_fixed(s);
    assert(s[0] == ']');
}

/// The line that holds the scan interval.
pub open spec fn interval_line(x: u64) -> Seq<char> {
    "scan_interval_secs = "@ + decimal(x as nat)
}

proof fn lemma_digits_plain(d: Seq<char>)
    requires
        forall|i: int| 0 <= i < d.len() ==> is_digit(#[trigger] d[i]),
    ensures
        !d.contains('#'),
        !d.contains('\n'),
        !d.contains('['),
        forall|i: int| 0 <= i < d.len() ==> !is_ws(#[trigger] d[i]),
{
    if d.contains('#') {
        let q = choose|q: int| 0 <= q < d.len() && d[q] == '#';
        assert(is_digit(d[q]));
    }
    if d.contains('\n') {
        let q = choose|q: int| 0 <= q < d.len() && d[q] == '\n';
        assert(is_digit(d[q]));
    }
    if d.contains('[') {
        let q = choose|q: int| 0 <= q < d.len() && d[q] == '[';
        assert(is_digit(d[q]));
    }
}

proof fn lemma_interval_literal()
    ensures
        "scan_interval_secs = "@ == "scan_interval_secs"@ + seq![' ', '=', ' '],
        "scan_interval_secs"@.len() == 18,
        !"scan_interval_secs"@.contains('#'),
        !"scan_interval_secs"@.contains('='),
        !"scan_interval_secs"@.contains('\n'),
        !is_ws("scan_interval_secs"@[0]),
        !is_ws("scan_interval_secs"@[17]),
{
    reveal_strlit("scan_interval_secs = ");
    reveal_strlit("scan_interval_secs");
    let key: Seq<char> = seq![
        's', 'c', 'a', 'n', '_', 'i', 'n', 't', 'e', 'r', 'v', 'a', 'l', '_', 's', 'e', 'c', 's'
    ];
    assert("scan_interval_secs"@ =~= key);
    assert("scan_interval_secs = "@ =~= key + seq![' ', '=', ' ']);
}

/// The interval line splits into its key and the decimal number.
proof fn lemma_interval_line(x: u64)
    ensures
        interval_line(x).len() > 20,
        cleaned(interval_line(x)) == interval_line(x),
        find(interval_line(x), '=') == 19,
        trim(interval_line(x).take(19)) == "scan_interval_secs"@,
        trim(interval_line(x).skip(20)) == decimal(x as nat),
        simple_line(interval_line(x)),
{
    lemma_interval_literal();
    let key = "scan_interval_secs"@;
    let sep: Seq<char> = seq![' ', '=', ' '];
    let d = decimal(x as nat);
    lemma_decimal_parse(x as nat);
    lemma_digits_plain(d);
    let s = interval_line(x);
    assert(s =~= key + (sep + d));
    assert(!sep.contains('#') && !sep.contains('\n'));
    lemma_contains_concat(sep, d, '#');
    lemma_contains_concat(sep, d, '\n');
    lemma_contains_concat(key, sep + d, '#');
    lemma_contains_concat(key, sep + d, '\n');
    lemma_find_absent(s, '#');
    assert(s.take(s.len() as int) == s);
    assert(s[0] == key[0]);
    assert(s.last() == d.last());
    assert(is_digit(d[d.len() - 1]));
    lemma_trim_fixed(s);
    lemma_find_shift(key, sep + d, '=');
    assert((sep + d)[0] == ' ' && (sep + d)[1] == '=');
    assert(find(sep + d, '=') == 1) by {
        reveal_with_fuel(find, 3);
    }
    let k = s.take(19);
    assert(k =~= key.push(' '));
    lemma_trim_start_fixed(k);
    assert(k.drop_last() =~= key);
    lemma_trim_end_fixed(key);
    let w = s.skip(20);
    assert(w =~= seq![' '] + d);
    assert(w.drop_first() =~= d);
    assert(is_digit(d[0]));
    lemma_trim_start_fixed(d);
    lemma_trim_end_fixed(d);
    assert(trim_start(w) == d);
}

// ---------------------------------------------------------------------------
// Reading the lines of a written configuration
// ---------------------------------------------------------------------------
proof fn lemma_parse_empty_line(ls: Seq<Seq<char>>, i: int, m: ConfigModel)
    requires
        0 <= i < ls.len(),
        ls[i] == Seq::<char>::empty(),
    ensures
        parse_from(ls, i, m) == parse_from(ls, i + 1, m),
{
    assert(ls[i].take(find(ls[i], '#')) =~= Seq::<char>::empty());
}

/// The interval as the reader takes it: a value outside 1 to 3600 leaves the
/// default.
pub open spec fn interval_read(x: u64) -> u64 {
    if 1 <= x <= 3600 {
        x
    } else {
        60
    }
}

proof fn lemma_parse_interval_line(ls: Seq<Seq<char>>, i: int, m: ConfigModel, x: u64)
    requires
        0 <= i < ls.len(),
        ls[i] == interval_line(x),
    ensures
        parse_from(ls, i, m) == parse_from(
            ls,
            i + 1,
            if 1 <= x <= 3600 {
                ConfigModel { scan_interval_secs: x, ..m }
            } else {
                m
            },
        ),
{
    lemma_interval_line(x);
    let d = decimal(x as nat);
    lemma_decimal_parse(x as nat);
    lemma_digits_plain(d);
    assert(is_digit(d[0]));
    assert(!opens_list(d));
    assert(gather(ls, d, i + 1) == (d, i + 1));
    lemma_parse_decimal(x);
    let s = cleaned(ls[i]);
    assert(s == interval_line(x));
    assert(s.len() > 19);
    assert(find(s, '=') == 19);
    assert(trim(s.skip(20int)) == d);
    assert(trim(s.take(19)) == "scan_interval_secs"@);
    let m1 = apply_entry(m, "scan_interval_secs"@, d);
    assert(m1 == if 1 <= x <= 3600 {
        ConfigModel { scan_interval_secs: x, ..m }
    } else {
        m
    });
    assert(parse_from(ls, i, m) == parse_from(ls, i + 1, m1));
}

/// The value that a non-empty list is read as.
pub open spec fn list_value(items: Seq<Seq<char>>) -> Seq<char> {
    list_body(items) + seq!['\n'] + "]"@
}

proof fn lemma_list_body_open(items: Seq<Seq<char>>)
    requires
        plain_names(items),
    ensures
        opens_list(list_body(items)),
    decreases items.len(),
{
    reveal_strlit("[");
    assert("["@ =~= seq!['[']);
    if items.len() > 0 {
        let init = items.drop_last();
        assert(plain_names(init)) by {
            assert forall|i: int| 0 <= i < init.len() implies plain_name(#[trigger] init[i]) by {
                assert(plain_name(items[i]));
            }
        }
        lemma_list_body_open(init);
        assert(plain_name(items[items.len() - 1]));
        lemma_item_line(items.last());
        let nl: Seq<char> = seq!['\n'];
        assert(!nl.contains(']')) by {
            assert(nl[0] != ']');
        }
        lemma_contains_concat(list_body(init), nl, ']');
        lemma_contains_concat(list_body(init) + nl, quoted_item(items.last()), ']');
        assert(list_body(items)[0] == list_body(init)[0]);
    } else {
        assert(!seq!['['].contains(']')) by {
            assert(seq!['['][0] != ']');
        }
    }
}

/// Gathering the lines of a non-empty list yields its value.
proof fn lemma_gather_list(ls: Seq<Seq<char>>, i: int, items: Seq<Seq<char>>, k: int)
    requires
        items.len() > 0,
        plain_names(items),
        0 <= i,
        i + items.len() + 2 <= ls.len(),
        forall|j: int| 0 <= j < items.len() ==> ls[i + 1 + j] == item_line(#[trigger] items[j]),
        ls[i + 1 + items.len()] == "]"@,
        0 <= k <= items.len(),
    ensures
        gather(ls, list_body(items.take(k)), i + 1 + k) == (list_value(items), i + items.len() + 2),
    decreases items.len() - k,
{
    let n: int = items.len() as int;
    assert(plain_names(items.take(k))) by {
        assert forall|j: int| 0 <= j < items.take(k).len() implies plain_name(
            #[trigger] items.take(k)[j],
        ) by {
            assert(plain_name(items[j]));
        }
    }
    lemma_list_body_open(items.take(k));
    if k < n {
        assert(0 <= i + 1 + k < ls.len());
        assert(gather(ls, list_body(items.take(k)), i + 1 + k) == gather(
            ls,
            list_body(items.take(k)) + seq!['\n'] + cleaned(ls[i + 1 + k]),
            i + 1 + k + 1,
        ));
        assert(ls[i + 1 + k] == item_line(items[k]));
        assert(plain_name(items[k]));
        lemma_item_line(items[k]);
        assert(items.take(k + 1).drop_last() =~= items.take(k));
        assert(items.take(k + 1).last() == items[k]);
        assert(list_body(items.take(k)) + seq!['\n'] + cleaned(ls[i + 1 + k]) == list_body(
            items.take(k + 1),
        ));
        lemma_gather_list(ls, i, items, k + 1);
    } else {
        assert(items.take(k) =~= items);
        lemma_close_line();
        let v = list_value(items);
        lemma_contains_concat(list_body(items) + seq!['\n'], "]"@, ']');
        assert(!opens_list(v));
        assert(0 <= i + 1 + k < ls.len());
        assert(cleaned(ls[i + 1 + k]) == "]"@);
        assert(gather(ls, list_body(items), i + 1 + k) == gather(ls, v, i + 1 + k + 1));
        assert(gather(ls, v, i + 1 + k + 1) == (v, i + 1 + k + 1));
    }
}

/// Reading a written list adds its lower-cased names.
proof fn lemma_parse_list(ls: Seq<Seq<char>>, i: int, m: ConfigModel, name: Seq<char>, items: Seq<Seq<char>>)
    requires
        list_key(name),
        plain_names(items),
        0 <= i,
        i + list_lines(name, items).len() <= ls.len(),
        ls.subrange(i, i + list_lines(name, items).len()) == list_lines(name, items),
    ensures
        parse_from(ls, i, m) == parse_from(
            ls,
            i + list_lines(name, items).len(),
            list_effect(m, name, items),
        ),
{
    lemma_list_key(name);
    let ll = list_lines(name, items);
    assert(ls[i] == ll[0]);
    if items.len() == 0 {
        lemma_list_head(name, " = []"@, "[]"@);
        let v = "[]"@;
        reveal_strlit("[]");
        assert(v =~= seq!['[', ']']);
        assert(v.contains(']')) by {
            assert(v[1] == ']');
        }
        assert(gather(ls, v, i + 1) == (v, i + 1));
        assert(!v.contains('"'));
        lemma_quote_ignored(seq![], v);
        assert(quote_start() == resting(seq![]));
        assert(quoted_items(v) =~= items);
        let s = cleaned(ls[i]);
        assert(s == name + " = []"@);
        let k: int = find(s, '=');
        assert(k == name.len() + 1);
        assert(k < s.len()) by {
            reveal_strlit(" = []");
            assert(" = []"@.len() == 5);
        }
        assert(trim(s.skip(k + 1)) == v);
        assert(trim(s.take(k)) == name);
        assert(parse_from(ls, i, m) == parse_from(ls, i + 1, apply_entry(m, name, v)));
        assert(apply_entry(m, name, v) == list_effect(m, name, items));
    } else {
        lemma_list_head(name, " = ["@, "["@);
        reveal_strlit("[");
        let n: int = items.len() as int;
        assert forall|j: int| 0 <= j < n implies ls[i + 1 + j] == item_line(#[trigger] items[j]) by {
            assert(ls[i + 1 + j] == ll[1 + j]);
        }
        assert(ls[i + 1 + n] == ll[1 + n]);
        lemma_gather_list(ls, i, items, 0);
        assert(items.take(0) =~= Seq::<Seq<char>>::empty());
        assert(list_body(items.take(0)) == "["@);
        let v = list_value(items);
        lemma_quote_body(items);
        lemma_quote_concat(quote_start(), list_body(items), seq!['\n'] + "]"@);
        assert(v == list_body(items) + (seq!['\n'] + "]"@)) by {
            assert(list_body(items) + seq!['\n'] + "]"@ =~= list_body(items) + (seq!['\n']
                + "]"@));
        }
        reveal_strlit("]");
        assert(!(seq!['\n'] + "]"@).contains('"')) by {
            assert(seq!['\n'] + "]"@ =~= seq!['\n', ']']);
        }
        lemma_quote_ignored(items, seq!['\n'] + "]"@);
        assert(quoted_items(v) == items);
        let s = cleaned(ls[i]);
        assert(s == name + " = ["@);
        let k: int = find(s, '=');
        assert(k == name.len() + 1);
        assert(k < s.len()) by {
            reveal_strlit(" = [");
            assert(" = ["@.len() == 4);
        }
        assert(trim(s.skip(k + 1)) == "["@);
        assert(trim(s.take(k)) == name);
        assert(parse_from(ls, i, m) == parse_from(ls, i + n + 2, apply_entry(m, name, v)));
        assert(apply_entry(m, name, v) == list_effect(m, name, items));
        assert(ll.len() == n + 2);
    }
}

proof fn lemma_list_lines_simple(name: Seq<char>, items: Seq<Seq<char>>)
    requires
        list_key(name),
        plain_names(items),
    ensures
        forall|j: int| 0 <= j < list_lines(name, items).len() ==> simple_line(
            #[trigger] list_lines(name, items)[j],
        ),
{
    let ll = list_lines(name, items);
    if items.len() == 0 {
        lemma_list_head(name, " = []"@, "[]"@);
    } else {
        lemma_list_head(name, " = ["@, "["@);
        lemma_close_line();
        assert forall|j: int| 0 <= j < ll.len() implies simple_line(#[trigger] ll[j]) by {
            if 0 < j < ll.len() - 1 {
                assert(ll[j] == item_line(items[j - 1]));
                assert(plain_name(items[j - 1]));
                lemma_item_line(items[j - 1]);
            }
        }
    }
}

proof fn lemma_simple_concat(a: Seq<Seq<char>>, b: Seq<Seq<char>>)
    requires
        forall|j: int| 0 <= j < a.len() ==> simple_line(#[trigger] a[j]),
        forall|j: int| 0 <= j < b.len() ==> simple_line(#[trigger] b[j]),
    ensures
        forall|j: int| 0 <= j < (a + b).len() ==> simple_line(#[trigger] (a + b)[j]),
{
    assert forall|j: int| 0 <= j < (a + b).len() implies simple_line(#[trigger] (a + b)[j]) by {
        if j < a.len() {
            assert((a + b)[j] == a[j]);
        } else {
            assert((a + b)[j] == b[j - a.len()]);
        }
    }
}

/// Reading back a written configuration gives its interval (when it lies
/// in 1 to 3600, else the default 60) and the lower-cased names of each
/// list, for lists whose names hold no double quote, backslash, `#`, `]`
/// or line feed.
pub proof fn lemma_config_round_trip(c: EditableModel)
    requires
        plain_names(c.allow),
        plain_names(c.allow_parent),
        plain_names(c.deny),
    ensures
        parsed(formatted(c)) == (ConfigModel {
            scan_interval_secs: interval_read(c.scan_interval_secs),
            allow_name: lowered(c.allow),
            allow_parent: lowered(c.allow_parent),
            deny_name: lowered(c.deny),
        }),
{
    let e: Seq<char> = seq![];
    let l1 = interval_line(c.scan_interval_secs);
    let la = list_lines("allow"@, c.allow);
    let lp = list_lines("allow_parent"@, c.allow_parent);
    let ld = list_lines("deny"@, c.deny);
    let ls = config_lines(c);
    assert(ls == seq![l1, e] + la + seq![e] + lp + seq![e] + ld);
    // every line survives the split into lines
    lemma_interval_line(c.scan_interval_secs);
    assert(simple_line(e)) by {
        assert(!e.contains('\n'));
    }
    assert(list_key("allow"@) && list_key("allow_parent"@) && list_key("deny"@));
    lemma_list_lines_simple("allow"@, c.allow);
    lemma_list_lines_simple("allow_parent"@, c.allow_parent);
    lemma_list_lines_simple("deny"@, c.deny);
    let h: Seq<Seq<char>> = seq![l1, e];
    let s1: Seq<Seq<char>> = seq![e];
    assert forall|j: int| 0 <= j < h.len() implies simple_line(#[trigger] h[j]) by {}
    assert forall|j: int| 0 <= j < s1.len() implies simple_line(#[trigger] s1[j]) by {}
    lemma_simple_concat(h, la);
    lemma_simple_concat(h + la, s1);
    lemma_simple_concat(h + la + s1, lp);
    lemma_simple_concat(h + la + s1 + lp, s1);
    lemma_simple_concat(h + la + s1 + lp + s1, ld);
    lemma_lines_terminated(ls);
    // the lines are read one group at a time
    let n1: int = la.len() as int;
    let n2: int = lp.len() as int;
    let n3: int = ld.len() as int;
    let d = default_model();
    let m1 = if 1 <= c.scan_interval_secs <= 3600 {
        ConfigModel { scan_interval_secs: c.scan_interval_secs, ..d }
    } else {
        d
    };
    lemma_parse_interval_line(ls, 0, d, c.scan_interval_secs);
    lemma_parse_empty_line(ls, 1, m1);
    assert(ls.subrange(2, 2 + n1) =~= la);
    lemma_parse_list(ls, 2, m1, "allow"@, c.allow);
    let m2 = list_effect(m1, "allow"@, c.allow);
    lemma_parse_empty_line(ls, 2 + n1, m2);
    assert(ls.subrange(3 + n1, 3 + n1 + n2) =~= lp);
    lemma_parse_list(ls, 3 + n1, m2, "allow_parent"@, c.allow_parent);
    let m3 = list_effect(m2, "allow_parent"@, c.allow_parent);
    lemma_parse_empty_line(ls, 3 + n1 + n2, m3);
    assert(ls.subrange(4 + n1 + n2, 4 + n1 + n2 + n3) =~= ld);
    lemma_parse_list(ls, 4 + n1 + n2, m3, "deny"@, c.deny);
    let m4 = list_effect(m3, "deny"@, c.deny);
    assert(ls.len() == 4 + n1 + n2 + n3);
    assert(parse_from(ls, 4 + n1 + n2 + n3, m4) == m4);
    lemma_list_key("allow"@);
    assert(m4.allow_name =~= lowered(c.allow));
    assert(m4.allow_parent =~= lowered(c.allow_parent));
    assert(m4.deny_name =~= lowered(c.deny));
}

// ---------------------------------------------------------------------------
// Checked names
// ---------------------------------------------------------------------------
proof fn lemma_trim_end_prefix(s: Seq<char>)
    ensures
        trim_end(s).len() <= s.len(),
        trim_end(s) == s.take(trim_end(s).len() as int),
        trim_end(s).len() == 0 || !is_ws(trim_end(s).last()),
    decreases s.len(),
{
    if s.len() > 0 && is_ws(s.last()) {
        lemma_trim_end_prefix(s.drop_last());
        assert(s.drop_last().take(trim_end(s).len() as int) =~= s.take(trim_end(s).len() as int));
    } else {
        assert(s.take(s.len() as int) == s);
    }
}

proof fn lemma_trim_start_suffix(s: Seq<char>)
    ensures
        trim_start(s).len() == 0 || !is_ws(trim_start(s)[0]),
    decreases s.len(),
{
    if s.len() > 0 && is_ws(s[0]) {
        lemma_trim_start_suffix(s.drop_first());
    }
}

/// Trimming twice is trimming once.
pub proof fn lemma_trim_idempotent(s: Seq<char>)
    ensures
        trim(trim(s)) == trim(s),
{
    let u = trim_start(s);
    let w = trim_end(u);
    lemma_trim_start_suffix(s);
    lemma_trim_end_prefix(u);
    if w.len() > 0 {
        assert(w[0] == u[0]);
        lemma_trim_start_fixed(w);
        lemma_trim_end_fixed(w);
    }
}

/// What the checked names are: trimmed, non-empty, free of forbidden
/// characters and distinct in lower case.
pub open spec fn clean_names(out: Seq<Seq<char>>) -> bool {
    &&& forall|i: int| 0 <= i < out.len() ==> trim(#[trigger] out[i]) == out[i]
    &&& forall|i: int| 0 <= i < out.len() ==> (#[trigger] out[i]).len() > 0
    &&& forall|i: int| 0 <= i < out.len() ==> !has_forbidden(#[trigger] out[i])
    &&& lowers(out).no_duplicates()
}

/// The names that checking keeps are trimmed, non-empty, free of forbidden
/// characters and distinct in lower case.
pub proof fn lemma_checked_names_clean(names: Seq<Seq<char>>)
    requires
        checked_names(names) is Ok,
    ensures
        clean_names(checked_names(names)->Ok_0),
    decreases names.len(),
{
    if names.len() > 0 {
        lemma_checked_names_clean(names.drop_last());
        let out = checked_names(names.drop_last())->Ok_0;
        let t = trim(names.last());
        lemma_trim_idempotent(names.last());
        if t.len() > 0 && !has_forbidden(t) && !lowers(out).contains(lower(t)) {
            let o2 = out.push(t);
            assert(lowers(o2) =~= lowers(out).push(lower(t)));
            assert forall|i: int| 0 <= i < o2.len() implies trim(#[trigger] o2[i]) == o2[i] && o2[i].len() > 0 && !has_forbidden(o2[i]) by {
                if i < out.len() {
                    assert(o2[i] == out[i]);
                }
            }
            assert(lowers(o2).no_duplicates()) by {
                assert forall|a: int, b: int| 0 <= a < lowers(o2).len() && 0 <= b < lowers(o2).len() && a != b
                    implies lowers(o2)[a] != lowers(o2)[b] by {
                    if a < out.len() && b < out.len() {
                        assert(lowers(o2)[a] == lowers(out)[a]);
                        assert(lowers(o2)[b] == lowers(out)[b]);
                    } else if a < out.len() {
                        assert(lowers(o2)[a] == lowers(out)[a]);
                        assert(lowers(out).contains(lowers(out)[a]));
                    } else {
                        assert(lowers(o2)[b] == lowers(out)[b]);
                        assert(lowers(out).contains(lowers(out)[b]));
                    }
                }
            }
        }
    }
}

/// Checking names that were already checked changes nothing.
pub proof fn lemma_checked_names_idempotent(names: Seq<Seq<char>>)
    requires
        checked_names(names) is Ok,
    ensures
        checked_names(checked_names(names)->Ok_0) == checked_names(names),
{
    let out = checked_names(names)->Ok_0;
    lemma_checked_names_clean(names);
    lemma_clean_names_fixed(out, out.len() as int);
    assert(out.take(out.len() as int) == out);
}

proof fn lemma_clean_names_fixed(out: Seq<Seq<char>>, j: int)
    requires
        clean_names(out),
        0 <= j <= out.len(),
    ensures
        checked_names(out.take(j)) == Ok::<Seq<Seq<char>>, Seq<char>>(out.take(j)),
    decreases j,
{
    if j > 0 {
        lemma_clean_names_fixed(out, j - 1);
        let pre = out.take(j - 1);
        assert(out.take(j).drop_last() == pre);
        assert(out.take(j).last() == out[j - 1]);
        let t = out[j - 1];
        assert(trim(t) == t);
        assert(!lowers(pre).contains(lower(t))) by {
            if lowers(pre).contains(lower(t)) {
                let q = choose|q: int| 0 <= q < lowers(pre).len() && lowers(pre)[q] == lower(t);
                assert(lowers(out)[q] == lowers(pre)[q]);
                assert(lowers(out)[j - 1] == lower(t));
            }
        }
        assert(pre.push(t) =~= out.take(j));
    } else {
        assert(out.take(0) =~= Seq::<Seq<char>>::empty());
    }
}

/// A checked name that holds neither `#` nor `]` is plain.
proof fn lemma_clean_names_plain(out: Seq<Seq<char>>)
    requires
        clean_names(out),
        forall|i: int| 0 <= i < out.len() ==> !(#[trigger] out[i]).contains('#') && !out[i].contains(']'),
    ensures
        plain_names(out),
{
    assert forall|i: int| 0 <= i < out.len() implies plain_name(#[trigger] out[i]) by {
        let n = out[i];
        assert(!has_forbidden(n));
        if n.contains('"') {
            let q = choose|q: int| 0 <= q < n.len() && n[q] == '"';
            assert(forbidden(n[q]));
        }
        if n.contains('\\') {
            let q = choose|q: int| 0 <= q < n.len() && n[q] == '\\';
            assert(forbidden(n[q]));
        }
        if n.contains('\n') {
            let q = choose|q: int| 0 <= q < n.len() && n[q] == '\n';
            assert(forbidden(n[q]));
        }
    }
}

/// Whether no name of the lists holds `#` or `]`.
pub open spec fn without_comment_or_bracket(s: Seq<Seq<char>>) -> bool {
    forall|i: int| 0 <= i < s.len() ==> !(#[trigger] s[i]).contains('#') && !s[i].contains(']')
}

/// A saved configuration reads back as saved: the text that saving writes
/// for `c` (interval in 1 to 3600, names checked) gives, when read, that
/// interval and the lower-cased checked names, as long as no kept name
/// holds `#` or `]`.
pub proof fn lemma_saved_config_reads_back(c: EditableModel)
    requires
        1 <= c.scan_interval_secs <= 3600,
        checked_config(c) is Ok,
        without_comment_or_bracket(checked_config(c)->Ok_0.allow),
        without_comment_or_bracket(checked_config(c)->Ok_0.allow_parent),
        without_comment_or_bracket(checked_config(c)->Ok_0.deny),
    ensures
        parsed(formatted(checked_config(c)->Ok_0)) == (ConfigModel {
            scan_interval_secs: c.scan_interval_secs,
            allow_name: lowered(checked_config(c)->Ok_0.allow),
            allow_parent: lowered(checked_config(c)->Ok_0.allow_parent),
            deny_name: lowered(checked_config(c)->Ok_0.deny),
        }),
{
    let v = checked_config(c)->Ok_0;
    lemma_checked_names_clean(c.allow);
    lemma_checked_names_clean(c.allow_parent);
    lemma_checked_names_clean(c.deny);
    lemma_clean_names_plain(v.allow);
    lemma_clean_names_plain(v.allow_parent);
    lemma_clean_names_plain(v.deny);
    lemma_config_round_trip(v);
}

// ---------------------------------------------------------------------------
// Configurations read from text
// ---------------------------------------------------------------------------
/// Lower-casing twice is lower-casing once.
pub proof fn lemma_lower_idempotent(s: Seq<char>)
    ensures
        lower(lower(s)) == lower(s),
{
    assert forall|i: int| 0 <= i < s.len() implies lower_char(lower_char(s[i])) == lower_char(
        s[i],
    ) by {
        let c = s[i];
        if 'A' <= c && c <= 'Z' {
            let d = ((c as u32) + 32) as char;
            assert(d as int == c as int + 32);
        }
    }
    assert(lower(lower(s)) =~= lower(s));
}

/// A configuration as the reader produces it: the interval in 1 to 3600 and
/// every name in lower case.
pub open spec fn normalized(m: ConfigModel) -> bool {
    &&& 1 <= m.scan_interval_secs <= 3600
    &&& forall|n: Seq<char>| #[trigger] m.allow_name.contains(n) ==> lower(n) == n
    &&& forall|n: Seq<char>| #[trigger] m.allow_parent.contains(n) ==> lower(n) == n
    &&& forall|n: Seq<char>| #[trigger] m.deny_name.contains(n) ==> lower(n) == n
}

proof fn lemma_lowered_lower(items: Seq<Seq<char>>)
    ensures
        forall|n: Seq<char>| #[trigger] lowered(items).contains(n) ==> lower(n) == n,
{
    assert forall|n: Seq<char>| #[trigger] lowered(items).contains(n) implies lower(n) == n by {
        let l = items.map_values(|x: Seq<char>| lower(x));
        assert(l.contains(n));
        let q = choose|q: int| 0 <= q < l.len() && l[q] == n;
        lemma_lower_idempotent(items[q]);
    }
}

proof fn lemma_parse_from_normalized(ls: Seq<Seq<char>>, i: int, m: ConfigModel)
    requires
        normalized(m),
    ensures
        normalized(parse_from(ls, i, m)),
    decreases ls.len() - i,
{
    if 0 <= i < ls.len() {
        let s = cleaned(ls[i]);
        let k: int = find(s, '=');
        if k >= s.len() {
            lemma_parse_from_normalized(ls, i + 1, m);
        } else {
            let g = gather(ls, trim(s.skip(k + 1)), i + 1);
            crate::rule::lemma_gather_index(ls, trim(s.skip(k + 1)), i + 1);
            lemma_lowered_lower(quoted_items(g.0));
            let m2 = apply_entry(m, trim(s.take(k)), g.0);
            assert(normalized(m2));
            lemma_parse_from_normalized(ls, g.1, m2);
        }
    }
}

/// Every configuration read from text is normalized: its interval lies in
/// 1 to 3600 and its names are in lower case.
pub proof fn lemma_parsed_normalized(text: Seq<char>)
    ensures
        normalized(parsed(text)),
{
    lemma_parse_from_normalized(lines(text), 0, default_model());
}

proof fn lemma_lowered_fixed(items: Seq<Seq<char>>, set: Set<Seq<char>>)
    requires
        items.to_set() == set,
        forall|n: Seq<char>| #[trigger] set.contains(n) ==> lower(n) == n,
    ensures
        lowered(items) == set,
{
    let l = items.map_values(|x: Seq<char>| lower(x));
    assert forall|i: int| 0 <= i < items.len() implies lower(#[trigger] items[i]) == items[i] by {
        assert(items.contains(items[i]));
        assert(set.contains(items[i]));
    }
    assert(l =~= items);
}

/// Writing out a read configuration and reading it again gives the same
/// configuration: for a normalized configuration `c` and lists `e` that
/// hold exactly its names (as `EditableConfig::from` makes them), with no
/// name holding a double quote, backslash, `#`, `]` or line feed.
pub proof fn lemma_config_reload(c: ConfigModel, e: EditableModel)
    requires
        normalized(c),
        e.scan_interval_secs == c.scan_interval_secs,
        e.allow.to_set() == c.allow_name,
        e.allow_parent.to_set() == c.allow_parent,
        e.deny.to_set() == c.deny_name,
        plain_names(e.allow),
        plain_names(e.allow_parent),
        plain_names(e.deny),
    ensures
        parsed(formatted(e)) == c,
{
    lemma_config_round_trip(e);
    lemma_lowered_fixed(e.allow, c.allow_name);
    lemma_lowered_fixed(e.allow_parent, c.allow_parent);
    lemma_lowered_fixed(e.deny, c.deny_name);
}

// ---------------------------------------------------------------------------
// Saving what the dashboard shows
// ---------------------------------------------------------------------------
/// A name that saving keeps as it is and that the file holds unchanged:
/// trimmed, non-empty, without forbidden characters, `#` or `]`.
pub open spec fn savable_name(n: Seq<char>) -> bool {
    &&& trim(n) == n
    &&& n.len() > 0
    &&& !has_forbidden(n)
    &&& !n.contains('#')
    &&& !n.contains(']')
}

/// Whether every name of a configuration is savable.
pub open spec fn savable_names(c: ConfigModel) -> bool {
    &&& forall|n: Seq<char>| #[trigger] c.allow_name.contains(n) ==> savable_name(n)
    &&& forall|n: Seq<char>| #[trigger] c.allow_parent.contains(n) ==> savable_name(n)
    &&& forall|n: Seq<char>| #[trigger] c.deny_name.contains(n) ==> savable_name(n)
}

proof fn lemma_listed_names_clean(items: Seq<Seq<char>>, set: Set<Seq<char>>)
    requires
        strictly_sorted(items),
        items.to_set() == set,
        forall|n: Seq<char>| #[trigger] set.contains(n) ==> savable_name(n) && lower(n) == n,
    ensures
        clean_names(items),
        without_comment_or_bracket(items),
        checked_names(items) == Ok::<Seq<Seq<char>>, Seq<char>>(items),
{
    assert forall|i: int| 0 <= i < items.len() implies savable_name(#[trigger] items[i]) && lower(
        items[i],
    ) == items[i] by {
        assert(items.contains(items[i]));
        assert(set.contains(items[i]));
    }
    assert(lowers(items) =~= items);
    assert(items.no_duplicates()) by {
        assert forall|i: int, j: int| 0 <= i < items.len() && 0 <= j < items.len() && i != j
            implies items[i] != items[j] by {
            if i < j {
                assert(crate::names::chars_lt(items[i], items[j]));
            } else {
                assert(crate::names::chars_lt(items[j], items[i]));
            }
            if items[i] == items[j] {
                lemma_chars_lt_irreflexive(items[i]);
            }
        }
    }
    lemma_clean_names_fixed(items, items.len() as int);
    assert(items.take(items.len() as int) == items);
}

/// Saving the configuration as the dashboard lists it, unchanged, keeps
/// every name and reads back as the configuration it was made from: for a
/// configuration read from text whose names are savable, and lists that
/// hold exactly its names in increasing order.
pub proof fn lemma_dashboard_save_reload(c: ConfigModel, e: EditableModel)
    requires
        normalized(c),
        savable_names(c),
        lists_config(e, c),
    ensures
        checked_config(e) == Ok::<EditableModel, Seq<char>>(e),
        parsed(formatted(e)) == c,
{
    lemma_listed_names_clean(e.allow, c.allow_name);
    lemma_listed_names_clean(e.allow_parent, c.allow_parent);
    lemma_listed_names_clean(e.deny, c.deny_name);
    lemma_clean_names_plain(e.allow);
    lemma_clean_names_plain(e.allow_parent);
    lemma_clean_names_plain(e.deny);
    lemma_config_reload(c, e);
}


// ---------------------------------------------------------------------------
// Lists written over several lines by hand
// ---------------------------------------------------------------------------
/// Whitespace that stays on one line: no line feed, no carriage return.
pub open spec fn spacing(w: Seq<char>) -> bool {
    forall|q: int| 0 <= q < w.len() ==> is_ws(#[trigger] w[q]) && w[q] != '\n' && w[q] != '\r'
}

/// A comment at the end of a line: `#` and its text, or nothing.
pub open spec fn comment_text(c: Option<Seq<char>>) -> Seq<char> {
    match c {
        Some(t) => "#"@ + t,
        None => seq![],
    }
}

/// A line of a list written by hand: indentation, quoted names each
/// followed by a comma, spacing, and perhaps a comment. With no names it is
/// a blank line or a comment line.
pub struct ListLine {
    pub indent: Seq<char>,
    pub items: Seq<Seq<char>>,
    pub trailing: Seq<char>,
    pub comment: Option<Seq<char>>,
}

/// Whether a line of a list stays one line and its names are plain.
pub open spec fn valid_list_line(l: ListLine) -> bool {
    &&& spacing(l.indent)
    &&& plain_names(l.items)
    &&& spacing(l.trailing)
    &&& match l.comment {
        Some(t) => !t.contains('\n'),
        None => true,
    }
}

/// Quoted names written one after the other, each followed by a comma.
pub open spec fn items_text(xs: Seq<Seq<char>>) -> Seq<char>
    decreases xs.len(),
{
    if xs.len() == 0 {
        seq![]
    } else {
        items_text(xs.drop_last()) + quoted_item(xs.last())
    }
}

/// The text of a line of a list.
pub open spec fn list_line_text(l: ListLine) -> Seq<char> {
    l.indent + items_text(l.items) + l.trailing + comment_text(l.comment)
}

/// The text of the closing line of a list: its names, then `]`.
pub open spec fn closing_line_text(l: ListLine) -> Seq<char> {
    l.indent + items_text(l.items) + "]"@ + l.trailing + comment_text(l.comment)
}

/// The names of a run of list lines, in order.
pub open spec fn list_line_items(ms: Seq<ListLine>) -> Seq<Seq<char>>
    decreases ms.len(),
{
    if ms.len() == 0 {
        seq![]
    } else {
        list_line_items(ms.drop_last()) + ms.last().items
    }
}

/// A list of the key `name` written by hand: the opening line `name = [`
/// continued by `first`, the lines `ms`, and the closing line `last`.
pub open spec fn spread_list(
    name: Seq<char>,
    first: ListLine,
    ms: Seq<ListLine>,
    last: ListLine,
) -> Seq<Seq<char>> {
    seq![name + " = ["@ + list_line_text(first)] + ms.map_values(|l: ListLine| list_line_text(l))
        + seq![closing_line_text(last)]
}

/// The gathered continuation of the lines `ms`.
spec fn middle_value(ms: Seq<ListLine>) -> Seq<char>
    decreases ms.len(),
{
    if ms.len() == 0 {
        seq![]
    } else {
        middle_value(ms.drop_last()) + seq!['\n'] + items_text(ms.last().items)
    }
}

/// Splitting lines that were each ended by a line feed gives them back,
/// without a carriage return at their end.
proof fn lemma_lines_terminated_cr(ls: Seq<Seq<char>>)
    requires
        forall|i: int| 0 <= i < ls.len() ==> !(#[trigger] ls[i]).contains('\n'),
    ensures
        lines(terminated(ls)) == ls.map_values(|l: Seq<char>| strip_cr(l)),
    decreases ls.len(),
{
    if ls.len() > 0 {
        let rest = terminated(ls.drop_first());
        let t = terminated(ls);
        let l0 = ls[0];
        assert(t == l0 + (seq!['\n'] + rest));
        assert(!ls[0].contains('\n'));
        lemma_find_shift(l0, seq!['\n'] + rest, '\n');
        assert((seq!['\n'] + rest)[0] == '\n');
        assert(find(seq!['\n'] + rest, '\n') == 0);
        assert(t.take(l0.len() as int) == l0);
        assert(t.skip(l0.len() + 1int) == rest);
        assert forall|i: int| 0 <= i < ls.drop_first().len() implies !(
        #[trigger] ls.drop_first()[i]).contains('\n') by {
            assert(!ls[i + 1].contains('\n'));
        }
        lemma_lines_terminated_cr(ls.drop_first());
        assert(lines(t) == seq![strip_cr(l0)] + ls.drop_first().map_values(
            |l: Seq<char>| strip_cr(l),
        ));
        assert(ls.map_values(|l: Seq<char>| strip_cr(l)) =~= seq![strip_cr(l0)]
            + ls.drop_first().map_values(|l: Seq<char>| strip_cr(l)));
    } else {
        assert(terminated(ls).len() == 0);
        assert(ls.map_values(|l: Seq<char>| strip_cr(l)) =~= Seq::<Seq<char>>::empty());
    }
}

/// A quoted plain name: no `#`, line feed or `]`, a quote first and a comma
/// last, and scanned it adds the name.
proof fn lemma_quoted_item_plain(out: Seq<Seq<char>>, x: Seq<char>)
    requires
        plain_name(x),
    ensures
        !quoted_item(x).contains('#'),
        !quoted_item(x).contains('\n'),
        !quoted_item(x).contains(']'),
        quoted_item(x).len() >= 3,
        quoted_item(x)[0] == '"',
        quoted_item(x).last() == ',',
        quote_run(resting(out), quoted_item(x)) == resting(out.push(x)),
{
    reveal_strlit("\"");
    reveal_strlit("\",");
    let q1: Seq<char> = seq!['"'];
    let q2: Seq<char> = seq!['"', ','];
    assert("\""@ == q1);
    assert("\","@ == q2);
    let t = quoted_item(x);
    assert(!q1.contains('#') && !q2.contains('#') && !q1.contains('\n') && !q2.contains('\n'));
    assert(!q1.contains(']') && !q2.contains(']'));
    lemma_contains_concat(q1, x, '#');
    lemma_contains_concat(q1 + x, q2, '#');
    lemma_contains_concat(q1, x, '\n');
    lemma_contains_concat(q1 + x, q2, '\n');
    lemma_contains_concat(q1, x, ']');
    lemma_contains_concat(q1 + x, q2, ']');
    assert(t[0] == '"');
    assert(t.last() == ',');
    let nl: Seq<char> = seq!['\n'];
    lemma_quote_item(out, x);
    lemma_quote_concat(resting(out), nl, t);
    assert(!nl.contains('"')) by {
        assert(nl[0] != '"');
    }
    lemma_quote_ignored(out, nl);
}

/// Quoted plain names on one line: no `#`, line feed or `]`, a quote first
/// and a comma last, and scanned they add the names.
proof fn lemma_items_text(out: Seq<Seq<char>>, xs: Seq<Seq<char>>)
    requires
        plain_names(xs),
    ensures
        !items_text(xs).contains('#'),
        !items_text(xs).contains('\n'),
        !items_text(xs).contains(']'),
        items_text(xs).len() > 0 ==> items_text(xs)[0] == '"' && items_text(xs).last() == ',',
        quote_run(resting(out), items_text(xs)) == resting(out + xs),
    decreases xs.len(),
{
    if xs.len() == 0 {
        assert(out + xs =~= out);
    } else {
        let init = xs.drop_last();
        assert(plain_names(init)) by {
            assert forall|i: int| 0 <= i < init.len() implies plain_name(#[trigger] init[i]) by {
                assert(plain_name(xs[i]));
            }
        }
        lemma_items_text(out, init);
        assert(plain_name(xs[xs.len() - 1]));
        lemma_quoted_item_plain(out + init, xs.last());
        let t0 = items_text(init);
        let q = quoted_item(xs.last());
        lemma_contains_concat(t0, q, '#');
        lemma_contains_concat(t0, q, '\n');
        lemma_contains_concat(t0, q, ']');
        lemma_quote_concat(resting(out), t0, q);
        assert((out + init).push(xs.last()) =~= out + xs);
        if t0.len() > 0 {
            assert((t0 + q)[0] == t0[0]);
        }
    }
}

/// Spacing holds none of the characters the reader looks for.
proof fn lemma_spacing(w: Seq<char>)
    requires
        spacing(w),
    ensures
        !w.contains('#'),
        !w.contains('\n'),
        !w.contains(']'),
        !w.contains('"'),
        !w.contains('='),
        w.len() > 0 ==> w.last() != '\r',
        forall|q: int| 0 <= q < w.len() ==> is_ws(#[trigger] w[q]),
{
    assert forall|c: char| !is_ws(c) && #[trigger] w.contains(c) implies false by {
        let q = choose|q: int| 0 <= q < w.len() && w[q] == c;
        assert(is_ws(w[q]));
    }
    assert(!is_ws('#') && !is_ws(']') && !is_ws('"') && !is_ws('='));
    if w.contains('\n') {
        let q = choose|q: int| 0 <= q < w.len() && w[q] == '\n';
        assert(w[q] != '\n');
    }
    if w.len() > 0 {
        assert(w[w.len() - 1] != '\r');
    }
}

/// Leading whitespace is dropped by `trim_start`.
proof fn lemma_trim_start_ws_prefix(w: Seq<char>, x: Seq<char>)
    requires
        forall|q: int| 0 <= q < w.len() ==> is_ws(#[trigger] w[q]),
    ensures
        trim_start(w + x) == trim_start(x),
    decreases w.len(),
{
    if w.len() > 0 {
        assert forall|q: int| 0 <= q < w.drop_first().len() implies is_ws(
            #[trigger] w.drop_first()[q],
        ) by {
            assert(is_ws(w[q + 1]));
        }
        assert((w + x)[0] == w[0]);
        assert(is_ws(w[0]));
        assert((w + x).drop_first() =~= w.drop_first() + x);
        lemma_trim_start_ws_prefix(w.drop_first(), x);
    } else {
        assert(w + x =~= x);
    }
}

/// Trailing whitespace is dropped by `trim_end`.
proof fn lemma_trim_end_ws_suffix(x: Seq<char>, w: Seq<char>)
    requires
        forall|q: int| 0 <= q < w.len() ==> is_ws(#[trigger] w[q]),
    ensures
        trim_end(x + w) == trim_end(x),
    decreases w.len(),
{
    if w.len() > 0 {
        assert forall|q: int| 0 <= q < w.drop_last().len() implies is_ws(
            #[trigger] w.drop_last()[q],
        ) by {
            assert(is_ws(w[q]));
        }
        assert((x + w).last() == w.last());
        assert(is_ws(w[w.len() - 1]));
        assert((x + w).drop_last() =~= x + w.drop_last());
        lemma_trim_end_ws_suffix(x, w.drop_last());
    } else {
        assert(x + w =~= x);
    }
}

/// Text between whitespace trims to itself, or to nothing when empty.
proof fn lemma_trim_spaced(w1: Seq<char>, t: Seq<char>, w2: Seq<char>)
    requires
        forall|q: int| 0 <= q < w1.len() ==> is_ws(#[trigger] w1[q]),
        forall|q: int| 0 <= q < w2.len() ==> is_ws(#[trigger] w2[q]),
        t.len() > 0 ==> !is_ws(t[0]) && !is_ws(t.last()),
    ensures
        trim(w1 + t + w2) == t,
{
    assert(w1 + t + w2 == w1 + (t + w2));
    lemma_trim_start_ws_prefix(w1, t + w2);
    if t.len() > 0 {
        assert((t + w2)[0] == t[0]);
        lemma_trim_start_fixed(t + w2);
        lemma_trim_end_ws_suffix(t, w2);
        lemma_trim_end_fixed(t);
    } else {
        assert(t + w2 =~= w2);
        assert(Seq::<char>::empty() + w2 =~= w2);
        lemma_trim_start_ws_prefix(w2, Seq::<char>::empty());
        assert(w2 + Seq::<char>::empty() =~= w2);
        assert(trim_start(Seq::<char>::empty()) == Seq::<char>::empty());
        assert(t =~= Seq::<char>::empty());
    }
}

/// A line that ends in a comment is cleaned to its trimmed text before the
/// comment, whether or not a carriage return ends it.
proof fn lemma_clean_commented(body: Seq<char>, c: Option<Seq<char>>)
    requires
        !body.contains('#'),
        !body.contains('\n'),
        body.len() > 0 ==> body.last() != '\r',
        c matches Some(t) ==> !t.contains('\n'),
    ensures
        !(body + comment_text(c)).contains('\n'),
        cleaned(strip_cr(body + comment_text(c))) == trim(body),
{
    let ct = comment_text(c);
    let full = body + ct;
    match c {
        Some(t) => {
            reveal_strlit("#");
            let h: Seq<char> = seq!['#'];
            assert("#"@ == h);
            assert(!h.contains('\n'));
            lemma_contains_concat(h, t, '\n');
            lemma_contains_concat(body, ct, '\n');
            assert(ct[0] == '#');
            let ct2 = if ct.last() == '\r' {
                ct.drop_last()
            } else {
                ct
            };
            if ct.last() == '\r' {
                assert(ct.len() >= 2);
            }
            assert(ct2.len() > 0 && ct2[0] == '#');
            assert(full.last() == ct.last());
            assert(strip_cr(full) =~= body + ct2);
            lemma_find_shift(body, ct2, '#');
            assert(find(ct2, '#') == 0);
            assert((body + ct2).take(body.len() as int) =~= body);
        },
        None => {
            assert(full =~= body);
            assert(strip_cr(full) == body);
            lemma_find_absent(body, '#');
            assert(body.take(body.len() as int) == body);
        },
    }
}

/// A line inside a list stays one line, and cleaned it is its names, each
/// quoted and followed by a comma.
proof fn lemma_middle_line(l: ListLine)
    requires
        valid_list_line(l),
    ensures
        !list_line_text(l).contains('\n'),
        cleaned(strip_cr(list_line_text(l))) == items_text(l.items),
{
    let t = items_text(l.items);
    lemma_items_text(seq![], l.items);
    lemma_spacing(l.indent);
    lemma_spacing(l.trailing);
    let body = l.indent + t + l.trailing;
    lemma_contains_concat(l.indent, t, '#');
    lemma_contains_concat(l.indent + t, l.trailing, '#');
    lemma_contains_concat(l.indent, t, '\n');
    lemma_contains_concat(l.indent + t, l.trailing, '\n');
    if l.trailing.len() > 0 {
        assert(body.last() == l.trailing.last());
    } else if t.len() > 0 {
        assert(body.last() == t.last());
    } else if l.indent.len() > 0 {
        assert(body.last() == l.indent.last());
    } else {
        assert(body.len() == 0);
    }
    lemma_clean_commented(body, l.comment);
    assert(list_line_text(l) == body + comment_text(l.comment));
    if t.len() > 0 {
        assert(!is_ws('"') && !is_ws(','));
    }
    lemma_trim_spaced(l.indent, t, l.trailing);
}

/// The closing line of a list stays one line, and cleaned it is its names
/// followed by `]`.
proof fn lemma_closing_line(l: ListLine)
    requires
        valid_list_line(l),
    ensures
        !closing_line_text(l).contains('\n'),
        cleaned(strip_cr(closing_line_text(l))) == items_text(l.items) + "]"@,
        (items_text(l.items) + "]"@).contains(']'),
{
    let t = items_text(l.items);
    lemma_items_text(seq![], l.items);
    lemma_spacing(l.indent);
    lemma_spacing(l.trailing);
    reveal_strlit("]");
    let c: Seq<char> = seq![']'];
    assert("]"@ == c);
    let tc = t + c;
    assert(!c.contains('#') && !c.contains('\n'));
    lemma_contains_concat(t, c, '#');
    lemma_contains_concat(t, c, '\n');
    let body = l.indent + tc + l.trailing;
    lemma_contains_concat(l.indent, tc, '#');
    lemma_contains_concat(l.indent + tc, l.trailing, '#');
    lemma_contains_concat(l.indent, tc, '\n');
    lemma_contains_concat(l.indent + tc, l.trailing, '\n');
    if l.trailing.len() > 0 {
        assert(body.last() == l.trailing.last());
    } else {
        assert(body.last() == ']');
    }
    lemma_clean_commented(body, l.comment);
    assert(closing_line_text(l) == body + comment_text(l.comment));
    assert(tc.last() == ']');
    if t.len() > 0 {
        assert(tc[0] == t[0]);
    } else {
        assert(tc[0] == ']');
    }
    assert(!is_ws('"') && !is_ws(']'));
    lemma_trim_spaced(l.indent, tc, l.trailing);
    assert(tc[tc.len() - 1] == ']');
}

/// The names of the opening line of a list with its indentation, or nothing
/// when it holds no names.
spec fn opening_rest(l: ListLine) -> Seq<char> {
    if items_text(l.items).len() > 0 {
        l.indent + items_text(l.items)
    } else {
        seq![]
    }
}

/// What the opening line of a list puts after `=`: `[`, then, when the line
/// holds names, its indentation and the names.
spec fn opening_value(l: ListLine) -> Seq<char> {
    "["@ + opening_rest(l)
}

/// The opening line of a list, cleaned, is the key, ` = [` and the rest of
/// the value.
proof fn lemma_opening_clean(name: Seq<char>, l: ListLine)
    requires
        list_key(name),
        valid_list_line(l),
    ensures
        !(name + " = ["@ + list_line_text(l)).contains('\n'),
        cleaned(strip_cr(name + " = ["@ + list_line_text(l))) == name + (" = ["@ + opening_rest(
            l,
        )),
{
    lemma_list_key(name);
    let t = items_text(l.items);
    lemma_items_text(seq![], l.items);
    lemma_spacing(l.indent);
    lemma_spacing(l.trailing);
    reveal_strlit(" = [");
    let tail: Seq<char> = seq![' ', '=', ' ', '['];
    assert(" = ["@ == tail);
    let rest = opening_rest(l);
    let w2 = if t.len() > 0 {
        l.trailing
    } else {
        l.indent + l.trailing
    };
    assert forall|q: int| 0 <= q < w2.len() implies is_ws(#[trigger] w2[q]) by {
        if t.len() == 0 && q < l.indent.len() {
            assert(w2[q] == l.indent[q]);
        } else if t.len() == 0 {
            assert(w2[q] == l.trailing[q - l.indent.len()]);
        }
    }
    let core = name + (tail + rest);
    let body = core + w2;
    assert(name + " = ["@ + list_line_text(l) =~= body + comment_text(l.comment));
    assert(!tail.contains('#') && !tail.contains('\n'));
    assert(!rest.contains('#') && !rest.contains('\n')) by {
        lemma_contains_concat(l.indent, t, '#');
        lemma_contains_concat(l.indent, t, '\n');
    }
    assert(!w2.contains('#') && !w2.contains('\n')) by {
        lemma_contains_concat(l.indent, l.trailing, '#');
        lemma_contains_concat(l.indent, l.trailing, '\n');
    }
    assert(!body.contains('#') && !body.contains('\n')) by {
        lemma_contains_concat(tail, rest, '#');
        lemma_contains_concat(tail, rest, '\n');
        lemma_contains_concat(name, tail + rest, '#');
        lemma_contains_concat(name, tail + rest, '\n');
        lemma_contains_concat(core, w2, '#');
        lemma_contains_concat(core, w2, '\n');
    }
    assert(core.last() == ',' || core.last() == '[') by {
        if rest.len() > 0 {
            assert(core.last() == t.last());
        } else {
            assert(core.last() == '[');
        }
    }
    assert(body.len() > 0 ==> body.last() != '\r') by {
        if w2.len() > 0 {
            assert(body.last() == w2.last());
            if t.len() > 0 {
                assert(w2.last() == l.trailing.last());
            } else if l.trailing.len() > 0 {
                assert(w2.last() == l.trailing.last());
            } else {
                assert(w2.last() == l.indent.last());
            }
        } else {
            assert(body.last() == core.last());
        }
    }
    lemma_clean_commented(body, l.comment);
    assert(core[0] == name[0]);
    assert(!is_ws(',') && !is_ws('['));
    lemma_trim_spaced(Seq::<char>::empty(), core, w2);
    assert(Seq::<char>::empty() + core + w2 =~= body);
}

/// The value of an opening line opens a list and holds the names of that
/// line.
proof fn lemma_opening_value(l: ListLine)
    requires
        valid_list_line(l),
    ensures
        opening_value(l).len() > 0,
        opening_value(l)[0] == '[',
        !is_ws(opening_value(l).last()),
        !opening_value(l).contains(']'),
        quote_run(quote_start(), opening_value(l)) == resting(l.items),
{
    let t = items_text(l.items);
    lemma_items_text(seq![], l.items);
    lemma_spacing(l.indent);
    reveal_strlit("[");
    let br: Seq<char> = seq!['['];
    assert("["@ == br);
    let rest = opening_rest(l);
    let v0 = opening_value(l);
    assert(v0 == br + rest);
    assert(v0[0] == '[');
    assert(!is_ws(',') && !is_ws('['));
    if rest.len() > 0 {
        assert(v0.last() == t.last());
    }
    assert(!br.contains(']') && !br.contains('"'));
    assert(!rest.contains(']')) by {
        lemma_contains_concat(l.indent, t, ']');
    }
    lemma_contains_concat(br, rest, ']');
    let st = quote_start();
    assert(st == resting(seq![]));
    lemma_quote_concat(st, br, rest);
    lemma_quote_ignored(seq![], br);
    if t.len() > 0 {
        lemma_quote_concat(resting(seq![]), l.indent, t);
        lemma_quote_ignored(seq![], l.indent);
        assert(Seq::<Seq<char>>::empty() + l.items =~= l.items);
    } else {
        assert(rest =~= Seq::<char>::empty());
        assert(l.items.len() == 0) by {
            if l.items.len() > 0 {
                assert(plain_name(l.items[l.items.len() - 1]));
                lemma_quoted_item_plain(seq![], l.items.last());
            }
        }
        assert(l.items =~= Seq::<Seq<char>>::empty());
    }
}

/// The opening line of a list written by hand splits into the key and a
/// value that opens a list and holds the names of that line.
proof fn lemma_opening_line(name: Seq<char>, l: ListLine)
    requires
        list_key(name),
        valid_list_line(l),
    ensures
        !(name + " = ["@ + list_line_text(l)).contains('\n'),
        find(cleaned(strip_cr(name + " = ["@ + list_line_text(l))), '=') == name.len() + 1,
        name.len() + 1 < cleaned(strip_cr(name + " = ["@ + list_line_text(l))).len(),
        trim(cleaned(strip_cr(name + " = ["@ + list_line_text(l))).take(name.len() + 1int))
            == name,
        trim(cleaned(strip_cr(name + " = ["@ + list_line_text(l))).skip(name.len() + 2int))
            == opening_value(l),
        opening_value(l).len() > 0,
        opening_value(l)[0] == '[',
        !opening_value(l).contains(']'),
        quote_run(quote_start(), opening_value(l)) == resting(l.items),
{
    lemma_list_key(name);
    lemma_opening_clean(name, l);
    lemma_opening_value(l);
    reveal_strlit(" = [");
    let tail: Seq<char> = seq![' ', '=', ' ', '['];
    assert(" = ["@ == tail);
    let rest = opening_rest(l);
    let v0 = opening_value(l);
    let s = name + (tail + rest);
    lemma_find_shift(name, tail + rest, '=');
    assert(find(tail + rest, '=') == 1) by {
        assert((tail + rest)[0] == ' ' && (tail + rest)[1] == '=');
        reveal_with_fuel(find, 3);
    }
    let k = s.take(name.len() + 1int);
    assert(k.drop_last() =~= name);
    assert(k.last() == ' ');
    lemma_trim_start_fixed(k);
    lemma_trim_end_fixed(name);
    assert(trim_end(k) == trim_end(name));
    let w = s.skip(name.len() + 2int);
    reveal_strlit("[");
    assert("["@ =~= seq!['[']);
    assert(w =~= seq![' '] + v0);
    lemma_trim_spaced(seq![' '], v0, Seq::<char>::empty());
    assert(seq![' '] + v0 + Seq::<char>::empty() =~= w);
}

/// The continuation of the lines `ms` holds no `]`, and scanned it adds
/// their names.
proof fn lemma_middle_value(out: Seq<Seq<char>>, ms: Seq<ListLine>)
    requires
        forall|j: int| 0 <= j < ms.len() ==> valid_list_line(#[trigger] ms[j]),
    ensures
        !middle_value(ms).contains(']'),
        quote_run(resting(out), middle_value(ms)) == resting(out + list_line_items(ms)),
    decreases ms.len(),
{
    if ms.len() == 0 {
        assert(out + list_line_items(ms) =~= out);
    } else {
        let init = ms.drop_last();
        assert forall|j: int| 0 <= j < init.len() implies valid_list_line(#[trigger] init[j]) by {
            assert(valid_list_line(ms[j]));
        }
        lemma_middle_value(out, init);
        let l = ms.last();
        assert(valid_list_line(ms[ms.len() - 1]));
        let nl: Seq<char> = seq!['\n'];
        assert(!nl.contains(']') && !nl.contains('"')) by {
            assert(nl[0] != ']' && nl[0] != '"');
        }
        let m0 = middle_value(init);
        let o1 = out + list_line_items(init);
        let t = items_text(l.items);
        lemma_items_text(o1, l.items);
        lemma_contains_concat(m0, nl, ']');
        lemma_contains_concat(m0 + nl, t, ']');
        lemma_quote_concat(resting(out), m0 + nl, t);
        lemma_quote_concat(resting(out), m0, nl);
        lemma_quote_ignored(o1, nl);
        assert(o1 + l.items =~= out + list_line_items(ms));
    }
}

/// Gathering a list written by hand takes every line up to the closing one,
/// each after a line feed.
proof fn lemma_gather_spread(
    ls: Seq<Seq<char>>,
    v0: Seq<char>,
    ms: Seq<ListLine>,
    close: Seq<char>,
    k: int,
)
    requires
        forall|j: int| 0 <= j < ms.len() ==> valid_list_line(#[trigger] ms[j]),
        ls.len() == ms.len() + 2,
        forall|j: int| 0 <= j < ms.len() ==> cleaned(#[trigger] ls[1 + j]) == items_text(ms[j].items),
        cleaned(ls[ms.len() + 1int]) == close,
        close.contains(']'),
        v0.len() > 0,
        v0[0] == '[',
        !v0.contains(']'),
        0 <= k <= ms.len(),
    ensures
        gather(ls, v0 + middle_value(ms.take(k)), 1 + k) == (
            v0 + middle_value(ms) + seq!['\n'] + close,
            ms.len() + 2int,
        ),
    decreases ms.len() - k,
{
    let n: int = ms.len() as int;
    let mk = ms.take(k);
    assert forall|j: int| 0 <= j < mk.len() implies valid_list_line(#[trigger] mk[j]) by {
        assert(mk[j] == ms[j]);
    }
    lemma_middle_value(seq![], mk);
    let v = v0 + middle_value(mk);
    lemma_contains_concat(v0, middle_value(mk), ']');
    assert(v[0] == '[');
    assert(opens_list(v));
    let nl: Seq<char> = seq!['\n'];
    if k < n {
        assert(gather(ls, v, 1 + k) == gather(ls, v + nl + cleaned(ls[1 + k]), 1 + k + 1));
        assert(ms.take(k + 1).drop_last() =~= mk);
        assert(ms.take(k + 1).last() == ms[k]);
        assert(middle_value(ms.take(k + 1)) == middle_value(mk) + nl + items_text(ms[k].items));
        assert(v + nl + cleaned(ls[1 + k]) =~= v0 + middle_value(ms.take(k + 1)));
        lemma_gather_spread(ls, v0, ms, close, k + 1);
    } else {
        assert(mk =~= ms);
        let w = v + nl + close;
        lemma_contains_concat(v + nl, close, ']');
        assert(!opens_list(w));
        assert(cleaned(ls[1 + k]) == close);
        assert(gather(ls, v, 1 + k) == gather(ls, w, 1 + k + 1));
        assert(gather(ls, w, 1 + k + 1) == (w, 1 + k + 1));
    }
}

/// A list written by hand over several lines is read with every name it
/// holds: those on the opening line after `[`, those of the lines in
/// between, and those on the closing line before `]`, whatever blank lines,
/// comment lines and comments at the ends of lines stand among them.
pub proof fn lemma_spread_list_read(
    name: Seq<char>,
    first: ListLine,
    ms: Seq<ListLine>,
    last: ListLine,
)
    requires
        list_key(name),
        valid_list_line(first),
        forall|j: int| 0 <= j < ms.len() ==> valid_list_line(#[trigger] ms[j]),
        valid_list_line(last),
    ensures
        parsed(terminated(spread_list(name, first, ms, last))) == list_effect(
            default_model(),
            name,
            first.items + list_line_items(ms) + last.items,
        ),
{
    let n: int = ms.len() as int;
    let head = name + " = ["@ + list_line_text(first);
    let closing = closing_line_text(last);
    let ls = spread_list(name, first, ms, last);
    lemma_opening_line(name, first);
    lemma_closing_line(last);
    assert(ls.len() == n + 2);
    assert(ls[0] == head);
    assert(ls[n + 1] == closing);
    assert forall|i: int| 0 <= i < ls.len() implies !(#[trigger] ls[i]).contains('\n') by {
        if 1 <= i <= n {
            assert(ls[i] == list_line_text(ms[i - 1]));
            lemma_middle_line(ms[i - 1]);
        }
    }
    lemma_lines_terminated_cr(ls);
    let lns = ls.map_values(|l: Seq<char>| strip_cr(l));
    assert(lines(terminated(ls)) == lns);
    assert(lns.len() == n + 2);
    assert(lns[0] == strip_cr(head));
    assert(lns[n + 1] == strip_cr(closing));
    assert forall|j: int| 0 <= j < n implies cleaned(#[trigger] lns[1 + j]) == items_text(
        ms[j].items,
    ) by {
        assert(lns[1 + j] == strip_cr(list_line_text(ms[j])));
        lemma_middle_line(ms[j]);
    }
    let close = items_text(last.items) + "]"@;
    let v0 = opening_value(first);
    assert(ms.take(0) =~= Seq::<ListLine>::empty());
    assert(v0 + middle_value(ms.take(0)) =~= v0);
    lemma_gather_spread(lns, v0, ms, close, 0);
    let value = v0 + middle_value(ms) + seq!['\n'] + close;
    assert(gather(lns, v0, 1) == (value, n + 2));
    // the names of the value
    let nl: Seq<char> = seq!['\n'];
    assert(!nl.contains('"')) by {
        assert(nl[0] != '"');
    }
    let mv = middle_value(ms);
    let st = quote_start();
    lemma_quote_concat(st, v0 + mv + nl, close);
    lemma_quote_concat(st, v0 + mv, nl);
    lemma_quote_concat(st, v0, mv);
    lemma_middle_value(first.items, ms);
    let o2 = first.items + list_line_items(ms);
    lemma_quote_ignored(o2, nl);
    lemma_items_text(o2, last.items);
    lemma_quote_concat(resting(o2), items_text(last.items), "]"@);
    reveal_strlit("]");
    assert(!"]"@.contains('"')) by {
        assert("]"@ =~= seq![']']);
        assert("]"@[0] != '"');
    }
    lemma_quote_ignored(o2 + last.items, "]"@);
    assert(quoted_items(value) == o2 + last.items);
    // reading the lines
    lemma_list_key(name);
    let s0 = cleaned(lns[0]);
    let k: int = find(s0, '=');
    assert(k == name.len() + 1);
    assert(trim(s0.skip(k + 1)) == v0);
    assert(trim(s0.take(k)) == name);
    let d = default_model();
    assert(parse_from(lns, 0, d) == parse_from(lns, n + 2, apply_entry(d, name, value)));
    assert(parse_from(lns, n + 2, apply_entry(d, name, value)) == apply_entry(d, name, value));
    assert(apply_entry(d, name, value) == list_effect(d, name, o2 + last.items));
}

proof fn lemma_line_items_concat(m1: Seq<ListLine>, m2: Seq<ListLine>)
    ensures
        list_line_items(m1 + m2) == list_line_items(m1) + list_line_items(m2),
    decreases m2.len(),
{
    if m2.len() == 0 {
        assert(m1 + m2 =~= m1);
        assert(list_line_items(m1) + list_line_items(m2) =~= list_line_items(m1));
    } else {
        assert((m1 + m2).drop_last() =~= m1 + m2.drop_last());
        assert((m1 + m2).last() == m2.last());
        lemma_line_items_concat(m1, m2.drop_last());
        assert(list_line_items(m1) + list_line_items(m2.drop_last()) + m2.last().items
            =~= list_line_items(m1) + (list_line_items(m2.drop_last()) + m2.last().items));
    }
}

/// A line without names (blank, or only a comment) inside a list written by
/// hand changes nothing that is read.
pub proof fn lemma_spread_list_nameless_line(
    name: Seq<char>,
    first: ListLine,
    m1: Seq<ListLine>,
    e: ListLine,
    m2: Seq<ListLine>,
    last: ListLine,
)
    requires
        list_key(name),
        valid_list_line(first),
        forall|j: int| 0 <= j < m1.len() ==> valid_list_line(#[trigger] m1[j]),
        valid_list_line(e),
        e.items.len() == 0,
        forall|j: int| 0 <= j < m2.len() ==> valid_list_line(#[trigger] m2[j]),
        valid_list_line(last),
    ensures
        parsed(terminated(spread_list(name, first, m1 + seq![e] + m2, last))) == parsed(
            terminated(spread_list(name, first, m1 + m2, last)),
        ),
{
    let with = m1 + seq![e] + m2;
    let without = m1 + m2;
    assert forall|j: int| 0 <= j < with.len() implies valid_list_line(#[trigger] with[j]) by {
        if j < m1.len() {
            assert(with[j] == m1[j]);
        } else if j > m1.len() {
            assert(with[j] == m2[j - m1.len() - 1]);
        }
    }
    assert forall|j: int| 0 <= j < without.len() implies valid_list_line(#[trigger] without[j]) by {
        if j < m1.len() {
            assert(without[j] == m1[j]);
        } else {
            assert(without[j] == m2[j - m1.len()]);
        }
    }
    lemma_spread_list_read(name, first, with, last);
    lemma_spread_list_read(name, first, without, last);
    lemma_line_items_concat(m1 + seq![e], m2);
    lemma_line_items_concat(m1, seq![e]);
    lemma_line_items_concat(m1, m2);
    let one = seq![e];
    assert(one.drop_last() =~= Seq::<ListLine>::empty());
    assert(one.last() == e);
    assert(list_line_items(one.drop_last()) =~= Seq::<Seq<char>>::empty());
    assert(list_line_items(one) == list_line_items(one.drop_last()) + one.last().items);
    assert(list_line_items(one) =~= e.items);
    assert(e.items =~= Seq::<Seq<char>>::empty());
    assert(list_line_items(m1) + list_line_items(one) =~= list_line_items(m1));
}

/// A list of the key `name` opened by hand and never closed: the opening
/// line `name = [` continued by `first`, then the lines `ms` up to the end
/// of the text.
pub open spec fn unclosed_list(name: Seq<char>, first: ListLine, ms: Seq<ListLine>) -> Seq<
    Seq<char>,
> {
    seq![name + " = ["@ + list_line_text(first)] + ms.map_values(|l: ListLine| list_line_text(l))
}

/// Gathering a list that is never closed takes every line to the end.
proof fn lemma_gather_unclosed(ls: Seq<Seq<char>>, v0: Seq<char>, ms: Seq<ListLine>, k: int)
    requires
        forall|j: int| 0 <= j < ms.len() ==> valid_list_line(#[trigger] ms[j]),
        ls.len() == ms.len() + 1,
        forall|j: int| 0 <= j < ms.len() ==> cleaned(#[trigger] ls[1 + j]) == items_text(ms[j].items),
        v0.len() > 0,
        v0[0] == '[',
        !v0.contains(']'),
        0 <= k <= ms.len(),
    ensures
        gather(ls, v0 + middle_value(ms.take(k)), 1 + k) == (v0 + middle_value(ms), ms.len() + 1int),
    decreases ms.len() - k,
{
    let n: int = ms.len() as int;
    let mk = ms.take(k);
    assert forall|j: int| 0 <= j < mk.len() implies valid_list_line(#[trigger] mk[j]) by {
        assert(mk[j] == ms[j]);
    }
    lemma_middle_value(seq![], mk);
    let v = v0 + middle_value(mk);
    lemma_contains_concat(v0, middle_value(mk), ']');
    assert(v[0] == '[');
    assert(opens_list(v));
    let nl: Seq<char> = seq!['\n'];
    if k < n {
        assert(gather(ls, v, 1 + k) == gather(ls, v + nl + cleaned(ls[1 + k]), 1 + k + 1));
        assert(ms.take(k + 1).drop_last() =~= mk);
        assert(ms.take(k + 1).last() == ms[k]);
        assert(middle_value(ms.take(k + 1)) == middle_value(mk) + nl + items_text(ms[k].items));
        assert(v + nl + cleaned(ls[1 + k]) =~= v0 + middle_value(ms.take(k + 1)));
        lemma_gather_unclosed(ls, v0, ms, k + 1);
    } else {
        assert(mk =~= ms);
    }
}

/// A list opened by hand and never closed before the end of the text is
/// still read, with every name it holds.
pub proof fn lemma_unclosed_list_read(name: Seq<char>, first: ListLine, ms: Seq<ListLine>)
    requires
        list_key(name),
        valid_list_line(first),
        forall|j: int| 0 <= j < ms.len() ==> valid_list_line(#[trigger] ms[j]),
    ensures
        parsed(terminated(unclosed_list(name, first, ms))) == list_effect(
            default_model(),
            name,
            first.items + list_line_items(ms),
        ),
{
    let n: int = ms.len() as int;
    let head = name + " = ["@ + list_line_text(first);
    let ls = unclosed_list(name, first, ms);
    lemma_opening_line(name, first);
    assert(ls.len() == n + 1);
    assert(ls[0] == head);
    assert forall|i: int| 0 <= i < ls.len() implies !(#[trigger] ls[i]).contains('\n') by {
        if 1 <= i <= n {
            assert(ls[i] == list_line_text(ms[i - 1]));
            lemma_middle_line(ms[i - 1]);
        }
    }
    lemma_lines_terminated_cr(ls);
    let lns = ls.map_values(|l: Seq<char>| strip_cr(l));
    assert(lines(terminated(ls)) == lns);
    assert(lns.len() == n + 1);
    assert(lns[0] == strip_cr(head));
    assert forall|j: int| 0 <= j < n implies cleaned(#[trigger] lns[1 + j]) == items_text(
        ms[j].items,
    ) by {
        assert(lns[1 + j] == strip_cr(list_line_text(ms[j])));
        lemma_middle_line(ms[j]);
    }
    let v0 = opening_value(first);
    assert(ms.take(0) =~= Seq::<ListLine>::empty());
    assert(v0 + middle_value(ms.take(0)) =~= v0);
    lemma_gather_unclosed(lns, v0, ms, 0);
    let value = v0 + middle_value(ms);
    assert(gather(lns, v0, 1) == (value, n + 1));
    let st = quote_start();
    lemma_quote_concat(st, v0, middle_value(ms));
    lemma_middle_value(first.items, ms);
    assert(quoted_items(value) == first.items + list_line_items(ms));
    lemma_list_key(name);
    let s0 = cleaned(lns[0]);
    let k: int = find(s0, '=');
    assert(k == name.len() + 1);
    assert(trim(s0.skip(k + 1)) == v0);
    assert(trim(s0.take(k)) == name);
    let d = default_model();
    assert(parse_from(lns, 0, d) == parse_from(lns, n + 1, apply_entry(d, name, value)));
    assert(parse_from(lns, n + 1, apply_entry(d, name, value)) == apply_entry(d, name, value));
    assert(apply_entry(d, name, value) == list_effect(d, name, first.items + list_line_items(ms)));
}

} // verus!

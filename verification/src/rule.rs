//! The rule set (which processes to release from power throttling) and the
//! configuration file: its parser, its writer and the checks made before
//! saving.
use vstd::prelude::*;
use std::collections::HashMap;
use crate::names::{lemma_push_to_set, strictly_sorted, views, NameSet};
use crate::process::Proc;
use crate::text::{
    append_chars, chars_eq, chars_of, contains_char, decimal, decimal_chars, find, find_char,
    lemma_find, lines, lines_of, low, lower, lower_chars, parse_u64, parse_u64_chars, string_of,
    sub_chars, trim, trim_chars,
};

verus! {

broadcast use vstd::std_specs::hash::group_hash_axioms;

// ---------------------------------------------------------------------------
// Data
// ---------------------------------------------------------------------------
/// Which processes are released: by name, by the name of an ancestor, and
/// which are never released.
pub struct Rule {
    pub allow_name: NameSet,
    pub allow_parent: NameSet,
    pub deny_name: NameSet,
}

/// The effective configuration.
pub struct Config {
    pub scan_interval_secs: u64,
    pub rule: Rule,
}

/// The configuration as the user edits it: lists in the order given.
pub struct EditableConfig {
    pub scan_interval_secs: u64,
    pub allow: Vec<String>,
    pub allow_parent: Vec<String>,
    pub deny: Vec<String>,
}

/// The model of a `Config`: the interval and the three name sets.
pub struct ConfigModel {
    pub scan_interval_secs: u64,
    pub allow_name: Set<Seq<char>>,
    pub allow_parent: Set<Seq<char>>,
    pub deny_name: Set<Seq<char>>,
}

/// The model of an `EditableConfig`: the interval and the three lists.
pub struct EditableModel {
    pub scan_interval_secs: u64,
    pub allow: Seq<Seq<char>>,
    pub allow_parent: Seq<Seq<char>>,
    pub deny: Seq<Seq<char>>,
}

impl View for Config {
    type V = ConfigModel;

    open spec fn view(&self) -> ConfigModel {
        ConfigModel {
            scan_interval_secs: self.scan_interval_secs,
            allow_name: self.rule.allow_name@,
            allow_parent: self.rule.allow_parent@,
            deny_name: self.rule.deny_name@,
        }
    }
}

impl View for EditableConfig {
    type V = EditableModel;

    open spec fn view(&self) -> EditableModel {
        EditableModel {
            scan_interval_secs: self.scan_interval_secs,
            allow: views(self.allow@),
            allow_parent: views(self.allow_parent@),
            deny: views(self.deny@),
        }
    }
}

/// The configuration used when the file says nothing: a 60 second interval
/// and no names.
pub open spec fn default_model() -> ConfigModel {
    ConfigModel {
        scan_interval_secs: 60,
        allow_name: Set::empty(),
        allow_parent: Set::empty(),
        deny_name: Set::empty(),
    }
}

impl Clone for Rule {
    fn clone(&self) -> (r: Self)
        ensures
            r.allow_name@ == self.allow_name@,
            r.allow_parent@ == self.allow_parent@,
            r.deny_name@ == self.deny_name@,
    {
        Rule {
            allow_name: self.allow_name.clone(),
            allow_parent: self.allow_parent.clone(),
            deny_name: self.deny_name.clone(),
        }
    }
}

impl Clone for Config {
    fn clone(&self) -> (r: Self)
        ensures
            r@ == self@,
    {
        Config { scan_interval_secs: self.scan_interval_secs, rule: self.rule.clone() }
    }
}

impl Default for Rule {
    fn default() -> (r: Self)
        ensures
            r.allow_name@ == Set::<Seq<char>>::empty(),
            r.allow_parent@ == Set::<Seq<char>>::empty(),
            r.deny_name@ == Set::<Seq<char>>::empty(),
    {
        Rule { allow_name: NameSet::new(), allow_parent: NameSet::new(), deny_name: NameSet::new() }
    }
}

impl Default for Config {
    fn default() -> (r: Self)
        ensures
            r@ == default_model(),
    {
        Config { scan_interval_secs: 60, rule: Rule::default() }
    }
}

/// The configuration to use after a reload: the one read, or the current
/// one when reading failed.
pub fn reloaded(current: Config, loaded: Option<Config>) -> (r: Config)
    ensures
        r@ == (match loaded {
            Some(c) => c@,
            None => current@,
        }),
{
    match loaded {
        Some(c) => c,
        None => current,
    }
}

// ---------------------------------------------------------------------------
// Reading the configuration text
// ---------------------------------------------------------------------------
/// A line without its comment (from the first `#` on) and without
/// surrounding whitespace.
pub open spec fn cleaned(line: Seq<char>) -> Seq<char> {
    trim(line.take(find(line, '#')))
}

/// Removes the comment and the surrounding whitespace of a line.
pub fn clean_chars(line: &Vec<char>) -> (r: Vec<char>)
    ensures
        r@ == cleaned(line@),
{
    proof {
        lemma_find(line@, '#');
    }
    let k: usize = find_char(line, '#');
    trim_chars(&sub_chars(line, 0, k))
}

/// A line without its comment and surrounding whitespace.
pub fn clean(line: &str) -> (r: String)
    ensures
        r@ == cleaned(line@),
{
    let v = chars_of(line);
    string_of(&clean_chars(&v))
}

/// The state of the scan for quoted strings.
pub struct QuoteScan {
    pub out: Seq<Seq<char>>,
    pub current: Seq<char>,
    pub quoted: bool,
    pub escape: bool,
}

/// The state before any character.
pub open spec fn quote_start() -> QuoteScan {
    QuoteScan { out: seq![], current: seq![], quoted: false, escape: false }
}

/// One character of the scan: inside quotes characters are collected, a
/// backslash takes the next character literally, a closing quote ends a
/// string; outside quotes everything but a quote is ignored.
pub open spec fn quote_step(st: QuoteScan, c: char) -> QuoteScan {
    if st.escape {
        QuoteScan { current: st.current.push(c), escape: false, ..st }
    } else if c == '\\' && st.quoted {
        QuoteScan { escape: true, ..st }
    } else if c == '"' {
        if st.quoted {
            QuoteScan { out: st.out.push(st.current), current: seq![], quoted: false, ..st }
        } else {
            QuoteScan { quoted: true, ..st }
        }
    } else if st.quoted {
        QuoteScan { current: st.current.push(c), ..st }
    } else {
        st
    }
}

/// The scan state after the characters of `s`, from `st`.
pub open spec fn quote_run(st: QuoteScan, s: Seq<char>) -> QuoteScan
    decreases s.len(),
{
    if s.len() == 0 {
        st
    } else {
        quote_step(quote_run(st, s.drop_last()), s.last())
    }
}

/// The complete double-quoted strings of `s`, in order; an unterminated
/// last string is dropped.
pub open spec fn quoted_items(s: Seq<char>) -> Seq<Seq<char>> {
    quote_run(quote_start(), s).out
}

/// The character views of a vector of character vectors.
pub open spec fn char_views(v: Seq<Vec<char>>) -> Seq<Seq<char>> {
    v.map_values(|x: Vec<char>| x@)
}

/// The double-quoted strings of `s`.
pub fn quoted_chars(s: &Vec<char>) -> (r: Vec<Vec<char>>)
    ensures
        char_views(r@) == quoted_items(s@),
{
    let mut out: Vec<Vec<char>> = Vec::new();
    let mut current: Vec<char> = Vec::new();
    let mut quoted = false;
    let mut escape = false;
    assert(s@.take(0) =~= Seq::<char>::empty());
    assert(char_views(out@) =~= Seq::<Seq<char>>::empty());
    for i in 0..s.len()
        invariant
            quote_run(quote_start(), s@.take(i as int)) == (QuoteScan {
                out: char_views(out@),
                current: current@,
                quoted: quoted,
                escape: escape,
            }),
    {
        let c = s[i];
        assert(s@.take(i + 1).drop_last() == s@.take(i as int));
        let ghost old_out = out@;
        if escape {
            current.push(c);
            escape = false;
        } else if c == '\\' && quoted {
            escape = true;
        } else if c == '"' {
            if quoted {
                let done = current;
                out.push(done);
                assert(char_views(out@) == char_views(old_out).push(done@));
                current = Vec::new();
            }
            quoted = !quoted;
        } else if quoted {
            current.push(c);
        }
    }
    assert(s@.take(s.len() as int) == s@);
    out
}

/// The double-quoted strings of `s` (escapes resolved).
pub fn strings(s: &str) -> (r: Vec<String>)
    ensures
        views(r@) == quoted_items(s@),
{
    let v = chars_of(s);
    let items = quoted_chars(&v);
    let mut r: Vec<String> = Vec::new();
    for i in 0..items.len()
        invariant
            views(r@) == char_views(items@).take(i as int),
    {
        r.push(string_of(&items[i]));
        assert(char_views(items@).take(i + 1) == char_views(items@).take(i as int).push(
            items@[i as int]@,
        ));
    }
    assert(char_views(items@).take(items.len() as int) == char_views(items@));
    r
}

/// Whether a value opens a list that continues on the following lines.
pub open spec fn opens_list(v: Seq<char>) -> bool {
    v.len() > 0 && v[0] == '[' && !v.contains(']')
}

/// A value together with the continuation lines it takes from line `j` on:
/// while the value opens an unclosed list, the next cleaned line is added
/// after a line feed. Gives the value and the index of the next line.
pub open spec fn gather(ls: Seq<Seq<char>>, value: Seq<char>, j: int) -> (Seq<char>, int)
    decreases ls.len() - j,
{
    if 0 <= j < ls.len() && opens_list(value) {
        gather(ls, value + seq!['\n'] + cleaned(ls[j]), j + 1)
    } else {
        (value, j)
    }
}

/// `gather` moves forward and stays within the lines.
pub proof fn lemma_gather_index(ls: Seq<Seq<char>>, value: Seq<char>, j: int)
    ensures
        j <= gather(ls, value, j).1,
        j <= ls.len() ==> gather(ls, value, j).1 <= ls.len(),
    decreases ls.len() - j,
{
    if 0 <= j < ls.len() && opens_list(value) {
        lemma_gather_index(ls, value + seq!['\n'] + cleaned(ls[j]), j + 1);
    }
}

/// The lower-cased names of a list of strings, as a set.
pub open spec fn lowered(items: Seq<Seq<char>>) -> Set<Seq<char>> {
    items.map_values(|n: Seq<char>| lower(n)).to_set()
}

/// The effect of one `key = value` entry: a valid interval (1 to 3600) is
/// taken, the three list keys add their lower-cased quoted names, anything
/// else is ignored.
pub open spec fn apply_entry(m: ConfigModel, key: Seq<char>, value: Seq<char>) -> ConfigModel {
    if key == "scan_interval_secs"@ {
        match parse_u64(value) {
            Some(x) => if 1 <= x <= 3600 {
                ConfigModel { scan_interval_secs: x, ..m }
            } else {
                m
            },
            None => m,
        }
    } else if key == "allow"@ {
        ConfigModel { allow_name: m.allow_name + lowered(quoted_items(value)), ..m }
    } else if key == "allow_parent"@ {
        ConfigModel { allow_parent: m.allow_parent + lowered(quoted_items(value)), ..m }
    } else if key == "deny"@ {
        ConfigModel { deny_name: m.deny_name + lowered(quoted_items(value)), ..m }
    } else {
        m
    }
}

/// The configuration after reading lines `i..` of `ls` into `m`: empty
/// lines and lines without `=` are skipped; a line `key = value` is split at
/// its first `=`, both sides trimmed, the value extended by `gather`.
pub open spec fn parse_from(ls: Seq<Seq<char>>, i: int, m: ConfigModel) -> ConfigModel
    decreases ls.len() - i,
{
    if i < 0 || i >= ls.len() {
        m
    } else {
        let s = cleaned(ls[i]);
        let k: int = find(s, '=');
        if k >= s.len() {
            parse_from(ls, i + 1, m)
        } else {
            let g = gather(ls, trim(s.skip(k + 1)), i + 1);
            proof {
                lemma_gather_index(ls, trim(s.skip(k + 1)), i + 1);
            }
            parse_from(ls, g.1, apply_entry(m, trim(s.take(k)), g.0))
        }
    }
}

/// The configuration that a text describes, starting from the defaults.
pub open spec fn parsed(text: Seq<char>) -> ConfigModel {
    parse_from(lines(text), 0, default_model())
}

/// Adds the lower-cased form of each item to `set`.
fn insert_lowered(set: &mut NameSet, items: &Vec<Vec<char>>)
    ensures
        final(set)@ == old(set)@ + lowered(char_views(items@)),
{
    let ghost start = set@;
    let ghost all = char_views(items@).map_values(|n: Seq<char>| lower(n));
    for i in 0..items.len()
        invariant
            all == char_views(items@).map_values(|n: Seq<char>| lower(n)),
            set@ == start + all.take(i as int).to_set(),
    {
        let l = lower_chars(&items[i]);
        set.insert(string_of(&l));
        proof {
            lemma_push_to_set(all.take(i as int), all[i as int]);
            assert(all.take(i + 1) == all.take(i as int).push(all[i as int]));
        }
        assert(set@ =~= start + all.take(i + 1).to_set());
    }
    assert(all.take(items.len() as int) == all);
}

/// Applies one entry to the configuration.
fn apply_entry_exec(config: &mut Config, key: &Vec<char>, value: &Vec<char>)
    ensures
        final(config)@ == apply_entry(old(config)@, key@, value@),
{
    if chars_eq(key, &chars_of("scan_interval_secs")) {
        match parse_u64_chars(value) {
            Some(x) => {
                if 1 <= x && x <= 3600 {
                    config.scan_interval_secs = x;
                }
            },
            None => {},
        }
    } else if chars_eq(key, &chars_of("allow")) {
        let items = quoted_chars(value);
        insert_lowered(&mut config.rule.allow_name, &items);
    } else if chars_eq(key, &chars_of("allow_parent")) {
        let items = quoted_chars(value);
        insert_lowered(&mut config.rule.allow_parent, &items);
    } else if chars_eq(key, &chars_of("deny")) {
        let items = quoted_chars(value);
        insert_lowered(&mut config.rule.deny_name, &items);
    }
}

/// Reads a configuration text. Unknown keys, malformed lines and invalid
/// intervals are ignored; list names are lower-cased.
pub fn parse(text: &str) -> (config: Config)
    ensures
        config@ == parsed(text@),
{
    let t = chars_of(text);
    let ls = lines_of(&t);
    let ghost lsv = char_views(ls@);
    let mut config = Config::default();
    let mut i: usize = 0;
    while i < ls.len()
        invariant
            0 <= i <= ls.len(),
            lsv == char_views(ls@),
            lsv == lines(text@),
            parse_from(lsv, 0, default_model()) == parse_from(lsv, i as int, config@),
        decreases ls.len() - i,
    {
        let ghost i0 = i as int;
        let s = clean_chars(&ls[i]);
        assert(s@ == cleaned(lsv[i0]));
        i += 1;
        proof {
            lemma_find(s@, '=');
        }
        if s.len() == 0 {
            continue;
        }
        let k: usize = find_char(&s, '=');
        if k == s.len() {
            continue;
        }
        let key = trim_chars(&sub_chars(&s, 0, k));
        let mut value = trim_chars(&sub_chars(&s, k + 1, s.len()));
        assert(s@.subrange(0, k as int) == s@.take(k as int));
        assert(s@.subrange(k + 1, s@.len() as int) == s@.skip(k + 1));
        let ghost v0 = value@;
        proof {
            lemma_gather_index(lsv, v0, i as int);
        }
        while i < ls.len() && value.len() > 0 && value[0] == '[' && !contains_char(&value, ']')
            invariant
                i0 < i <= ls.len(),
                lsv == char_views(ls@),
                gather(lsv, v0, i0 + 1) == gather(lsv, value@, i as int),
            decreases ls.len() - i,
        {
            let ghost old_value = value@;
            value.push('\n');
            let c = clean_chars(&ls[i]);
            append_chars(&mut value, &c);
            assert(c@ == cleaned(lsv[i as int]));
            assert(value@ =~= old_value + seq!['\n'] + cleaned(lsv[i as int]));
            i += 1;
        }
        assert(gather(lsv, value@, i as int) == (value@, i as int));
        apply_entry_exec(&mut config, &key, &value);
    }
    config
}

// ---------------------------------------------------------------------------
// Writing the configuration text
// ---------------------------------------------------------------------------
/// The line for one list item: two spaces, the name in double quotes and a
/// comma.
pub open spec fn item_line(n: Seq<char>) -> Seq<char> {
    "  \""@ + n + "\","@
}

/// The lines of one list: `name = []` when empty, otherwise `name = [`,
/// one line per item and `]`.
pub open spec fn list_lines(name: Seq<char>, items: Seq<Seq<char>>) -> Seq<Seq<char>> {
    if items.len() == 0 {
        seq![name + " = []"@]
    } else {
        seq![name + " = ["@] + items.map_values(|n: Seq<char>| item_line(n)) + seq!["]"@]
    }
}

/// The lines of the configuration file: the interval, an empty line, then
/// the three lists separated by empty lines.
pub open spec fn config_lines(c: EditableModel) -> Seq<Seq<char>> {
    seq!["scan_interval_secs = "@ + decimal(c.scan_interval_secs as nat), seq![]] + list_lines(
        "allow"@,
        c.allow,
    ) + seq![seq![]] + list_lines("allow_parent"@, c.allow_parent) + seq![seq![]] + list_lines(
        "deny"@,
        c.deny,
    )
}

/// Lines joined into a text, each ended by a line feed.
pub open spec fn terminated(ls: Seq<Seq<char>>) -> Seq<char>
    decreases ls.len(),
{
    if ls.len() == 0 {
        seq![]
    } else {
        ls[0] + seq!['\n'] + terminated(ls.drop_first())
    }
}

/// The text of the configuration file for `c`.
pub open spec fn formatted(c: EditableModel) -> Seq<char> {
    terminated(config_lines(c))
}

/// Appends the lines of one list.
fn push_list(ls: &mut Vec<Vec<char>>, name: &str, items: &Vec<String>)
    ensures
        char_views(final(ls)@) == char_views(old(ls)@) + list_lines(name@, views(items@)),
{
    let ghost start = char_views(ls@);
    let n = chars_of(name);
    if items.len() == 0 {
        let mut l = n;
        append_chars(&mut l, &chars_of(" = []"));
        ls.push(l);
        assert(char_views(ls@) =~= start + list_lines(name@, views(items@)));
    } else {
        let mut first = n;
        append_chars(&mut first, &chars_of(" = ["));
        ls.push(first);
        let ghost lines_of_items = views(items@).map_values(|x: Seq<char>| item_line(x));
        assert(char_views(ls@) =~= start + seq![name@ + " = ["@]);
        for i in 0..items.len()
            invariant
                lines_of_items == views(items@).map_values(|x: Seq<char>| item_line(x)),
                char_views(ls@) == start + seq![name@ + " = ["@] + lines_of_items.take(i as int),
        {
            let mut l = chars_of("  \"");
            append_chars(&mut l, &chars_of(items[i].as_str()));
            append_chars(&mut l, &chars_of("\","));
            let ghost before = char_views(ls@);
            ls.push(l);
            assert(char_views(ls@) == before.push(l@));
            assert(lines_of_items.take(i + 1) == lines_of_items.take(i as int).push(
                lines_of_items[i as int],
            ));
            assert(char_views(ls@) =~= start + seq![name@ + " = ["@] + lines_of_items.take(
                i + 1,
            ));
        }
        let ghost before = char_views(ls@);
        ls.push(chars_of("]"));
        assert(lines_of_items.take(items.len() as int) == lines_of_items);
        assert(char_views(ls@) == before.push("]"@));
        assert(char_views(ls@) =~= start + list_lines(name@, views(items@)));
    }
}

/// Joins lines, ending each with a line feed.
fn join_lines(ls: &Vec<Vec<char>>) -> (r: Vec<char>)
    ensures
        r@ == terminated(char_views(ls@)),
{
    let ghost all = char_views(ls@);
    let mut out: Vec<char> = Vec::new();
    assert(all.skip(0) == all);
    for i in 0..ls.len()
        invariant
            all == char_views(ls@),
            terminated(all) == out@ + terminated(all.skip(i as int)),
    {
        let ghost before = out@;
        append_chars(&mut out, &ls[i]);
        out.push('\n');
        assert(all.skip(i as int).drop_first() == all.skip(i + 1));
        assert(all.skip(i as int)[0] == ls@[i as int]@);
        assert(out@ + terminated(all.skip(i + 1)) =~= before + terminated(all.skip(i as int)));
    }
    assert(all.skip(ls.len() as int) == Seq::<Seq<char>>::empty());
    assert(out@ + Seq::<char>::empty() == out@);
    out
}

/// The text of the configuration file: the interval, then the `allow`,
/// `allow_parent` and `deny` lists, one quoted name per line.
pub fn format_config(config: &EditableConfig) -> (text: String)
    ensures
        text@ == formatted(config@),
{
    let mut ls: Vec<Vec<char>> = Vec::new();
    let mut first = chars_of("scan_interval_secs = ");
    append_chars(&mut first, &decimal_chars(config.scan_interval_secs));
    ls.push(first);
    ls.push(Vec::new());
    let ghost c = config@;
    let ghost e: Seq<char> = seq![];
    let ghost l1 = "scan_interval_secs = "@ + decimal(c.scan_interval_secs as nat);
    assert(char_views(ls@) =~= seq![l1, e]);
    push_list(&mut ls, "allow", &config.allow);
    let ghost a1 = char_views(ls@);
    ls.push(Vec::new());
    assert(char_views(ls@) =~= a1.push(e));
    push_list(&mut ls, "allow_parent", &config.allow_parent);
    let ghost a2 = char_views(ls@);
    ls.push(Vec::new());
    assert(char_views(ls@) =~= a2.push(e));
    push_list(&mut ls, "deny", &config.deny);
    assert(char_views(ls@) =~= config_lines(config@));
    string_of(&join_lines(&ls))
}

/// Whether `e` lists the configuration `c`: the same interval, and each
/// name set listed in strictly increasing order.
pub open spec fn lists_config(e: EditableModel, c: ConfigModel) -> bool {
    &&& e.scan_interval_secs == c.scan_interval_secs
    &&& strictly_sorted(e.allow) && e.allow.to_set() == c.allow_name
    &&& strictly_sorted(e.allow_parent) && e.allow_parent.to_set() == c.allow_parent
    &&& strictly_sorted(e.deny) && e.deny.to_set() == c.deny_name
}

impl EditableConfig {
    /// The editable form of a configuration: its three name sets, each
    /// listed in increasing order.
    pub fn from(config: &Config) -> (r: EditableConfig)
        ensures
            lists_config(r@, config@),
    {
        EditableConfig {
            scan_interval_secs: config.scan_interval_secs,
            allow: config.rule.allow_name.sorted(),
            allow_parent: config.rule.allow_parent.sorted(),
            deny: config.rule.deny_name.sorted(),
        }
    }
}

// ---------------------------------------------------------------------------
// Checking names before saving
// ---------------------------------------------------------------------------
/// Why a configuration cannot be saved.
#[derive(Debug, PartialEq, Eq)]
pub enum ConfigError {
    /// The scan interval lies outside 1 to 3600 seconds.
    IntervalOutOfRange,
    /// A process name holds a control character, a double quote or a
    /// backslash (the name is given trimmed).
    InvalidName(String),
}

impl ConfigError {
    /// The message shown to the user.
    pub fn message(&self) -> (r: String)
        ensures
            r@ == (match self {
                ConfigError::IntervalOutOfRange => "扫描间隔须为 1–3600 秒"@,
                ConfigError::InvalidName(n) => "无效进程名："@ + n@,
            }),
    {
        match self {
            ConfigError::IntervalOutOfRange => string_of(&chars_of("扫描间隔须为 1–3600 秒")),
            ConfigError::InvalidName(n) => {
                let mut v = chars_of("无效进程名：");
                append_chars(&mut v, &chars_of(n.as_str()));
                string_of(&v)
            },
        }
    }
}

/// `char::is_control`: the characters of Unicode category Cc.
pub open spec fn is_control(c: char) -> bool {
    c < '\u{20}' || ('\u{7f}' <= c && c <= '\u{9f}')
}

/// A character that a process name may not hold.
pub open spec fn forbidden(c: char) -> bool {
    is_control(c) || c == '"' || c == '\\'
}

/// Whether `t` holds a character that a process name may not hold.
pub open spec fn has_forbidden(t: Seq<char>) -> bool {
    exists|i: int| 0 <= i < t.len() && forbidden(#[trigger] t[i])
}

/// The lower-cased forms of a list of names.
pub open spec fn lowers(s: Seq<Seq<char>>) -> Seq<Seq<char>> {
    s.map_values(|n: Seq<char>| lower(n))
}

/// The names to save from a list, in order: each trimmed, empty ones
/// skipped, a name whose lower-case form was already taken skipped; the
/// first name (trimmed) with a forbidden character is the error.
pub open spec fn checked_names(names: Seq<Seq<char>>) -> Result<Seq<Seq<char>>, Seq<char>>
    decreases names.len(),
{
    if names.len() == 0 {
        Ok(seq![])
    } else {
        match checked_names(names.drop_last()) {
            Err(e) => Err(e),
            Ok(out) => {
                let t = trim(names.last());
                if t.len() == 0 {
                    Ok(out)
                } else if has_forbidden(t) {
                    Err(t)
                } else if lowers(out).contains(lower(t)) {
                    Ok(out)
                } else {
                    Ok(out.push(t))
                }
            },
        }
    }
}

/// Once a prefix of the names fails, the whole list fails the same way.
pub proof fn lemma_checked_names_err(names: Seq<Seq<char>>, i: int)
    requires
        0 <= i <= names.len(),
        checked_names(names.take(i)) is Err,
    ensures
        checked_names(names) == checked_names(names.take(i)),
    decreases names.len() - i,
{
    if i < names.len() {
        assert(names.take(i + 1).drop_last() == names.take(i));
        lemma_checked_names_err(names, i + 1);
    } else {
        assert(names.take(i) == names);
    }
}

/// Whether a name holds a forbidden character.
fn has_forbidden_chars(t: &Vec<char>) -> (r: bool)
    ensures
        r == has_forbidden(t@),
{
    for i in 0..t.len()
        invariant
            forall|j: int| 0 <= j < i ==> !forbidden(#[trigger] t@[j]),
    {
        let c = t[i];
        if c < '\u{20}' || ('\u{7f}' <= c && c <= '\u{9f}') || c == '"' || c == '\\' {
            assert(forbidden(t@[i as int]));
            return true;
        }
    }
    false
}

/// Whether `l` is one of `seen`.
fn contains_chars(seen: &Vec<Vec<char>>, l: &Vec<char>) -> (r: bool)
    ensures
        r == char_views(seen@).contains(l@),
{
    for i in 0..seen.len()
        invariant
            forall|j: int| 0 <= j < i ==> char_views(seen@)[j] != l@,
    {
        if chars_eq(&seen[i], l) {
            assert(char_views(seen@)[i as int] == l@);
            return true;
        }
    }
    false
}

/// The names to save from a list (see `checked_names`), or the first
/// invalid name.
pub fn valid_names(names: Vec<String>) -> (r: Result<Vec<String>, ConfigError>)
    ensures
        match r {
            Ok(out) => checked_names(views(names@)) == Ok::<Seq<Seq<char>>, Seq<char>>(
                views(out@),
            ),
            Err(ConfigError::InvalidName(n)) => checked_names(views(names@)) == Err::<
                Seq<Seq<char>>,
                Seq<char>,
            >(n@),
            Err(ConfigError::IntervalOutOfRange) => false,
        },
{
    let ghost all = views(names@);
    let mut out: Vec<String> = Vec::new();
    let mut seen: Vec<Vec<char>> = Vec::new();
    assert(all.take(0) =~= Seq::<Seq<char>>::empty());
    assert(views(out@) =~= Seq::<Seq<char>>::empty());
    assert(char_views(seen@) =~= lowers(views(out@)));
    for i in 0..names.len()
        invariant
            all == views(names@),
            checked_names(all.take(i as int)) == Ok::<Seq<Seq<char>>, Seq<char>>(views(out@)),
            char_views(seen@) == lowers(views(out@)),
    {
        let t = trim_chars(&chars_of(names[i].as_str()));
        assert(all.take(i + 1).drop_last() == all.take(i as int));
        assert(all.take(i + 1).last() == all[i as int]);
        if t.len() > 0 {
            if has_forbidden_chars(&t) {
                proof {
                    lemma_checked_names_err(all, i + 1);
                }
                return Err(ConfigError::InvalidName(string_of(&t)));
            }
            let l = lower_chars(&t);
            if !contains_chars(&seen, &l) {
                let ghost before = views(out@);
                let ghost seen_before = char_views(seen@);
                out.push(string_of(&t));
                seen.push(l);
                assert(views(out@) == before.push(t@));
                assert(char_views(seen@) == seen_before.push(l@));
                assert(lowers(before.push(t@)) =~= lowers(before).push(lower(t@)));
                assert(char_views(seen@) =~= lowers(views(out@)));
            }
        }
    }
    assert(all.take(names.len() as int) == all);
    Ok(out)
}

/// The lists to save, each checked by `checked_names`, or the first
/// invalid name (of `allow`, then `allow_parent`, then `deny`).
pub open spec fn checked_config(c: EditableModel) -> Result<EditableModel, Seq<char>> {
    match checked_names(c.allow) {
        Err(e) => Err(e),
        Ok(a) => match checked_names(c.allow_parent) {
            Err(e) => Err(e),
            Ok(p) => match checked_names(c.deny) {
                Err(e) => Err(e),
                Ok(d) => Ok(
                    EditableModel {
                        scan_interval_secs: c.scan_interval_secs,
                        allow: a,
                        allow_parent: p,
                        deny: d,
                    },
                ),
            },
        },
    }
}

/// The text to write when saving `config`: refused when the interval lies
/// outside 1 to 3600 seconds or a name is invalid, otherwise the checked
/// configuration as `format_config` writes it.
pub fn save_text(config: EditableConfig) -> (r: Result<String, ConfigError>)
    ensures
        match r {
            Ok(text) => 1 <= config.scan_interval_secs <= 3600 && (checked_config(config@) matches Ok(c)
                && text@ == formatted(c)),
            Err(ConfigError::IntervalOutOfRange) => !(1 <= config.scan_interval_secs <= 3600),
            Err(ConfigError::InvalidName(n)) => 1 <= config.scan_interval_secs <= 3600
                && checked_config(config@) == Err::<EditableModel, Seq<char>>(n@),
        },
{
    if !(1 <= config.scan_interval_secs && config.scan_interval_secs <= 3600) {
        return Err(ConfigError::IntervalOutOfRange);
    }
    let ghost c = config@;
    let allow = valid_names(config.allow)?;
    let allow_parent = valid_names(config.allow_parent)?;
    let deny = valid_names(config.deny)?;
    let checked = EditableConfig {
        scan_interval_secs: config.scan_interval_secs,
        allow: allow,
        allow_parent: allow_parent,
        deny: deny,
    };
    Ok(format_config(&checked))
}

// ---------------------------------------------------------------------------
// Which processes the rule releases
// ---------------------------------------------------------------------------
/// Whether, following parent links from `parent` through at most `fuel`
/// processes of `ps`, a process whose lower-cased name is in `names` is met
/// before a link leads out of `ps`.
pub open spec fn has_parent_within(
    ps: Map<u32, Proc>,
    parent: u32,
    names: Set<Seq<char>>,
    fuel: nat,
) -> bool
    decreases fuel,
{
    if fuel == 0 {
        false
    } else if !ps.contains_key(parent) {
        false
    } else if names.contains(lower(ps[parent].name@)) {
        true
    } else {
        has_parent_within(ps, ps[parent].parent, names, (fuel - 1) as nat)
    }
}

/// The process id reached from `pid` by following `k` parent links.
pub open spec fn ancestor(ps: Map<u32, Proc>, pid: u32, k: nat) -> u32
    decreases k,
{
    if k == 0 {
        pid
    } else {
        ancestor(ps, ps[pid].parent, (k - 1) as nat)
    }
}

/// Whether the processes `ancestor(ps, pid, 0..=k)` are all in `ps`.
pub open spec fn chain_present(ps: Map<u32, Proc>, pid: u32, k: nat) -> bool {
    forall|j: nat| j <= k ==> ps.contains_key(#[trigger] ancestor(ps, pid, j))
}

/// Whether the `k`-th process up from `pid` is present, with every process
/// on the way, and has a lower-cased name in `names`.
pub open spec fn named_ancestor(ps: Map<u32, Proc>, pid: u32, names: Set<Seq<char>>, k: nat) -> bool {
    chain_present(ps, pid, k) && names.contains(lower(ps[ancestor(ps, pid, k)].name@))
}

/// Whether some process up the chain of parents from `pid`, at any depth,
/// is present with all on the way and has a lower-cased name in `names`.
pub open spec fn has_named_ancestor(ps: Map<u32, Proc>, pid: u32, names: Set<Seq<char>>) -> bool {
    exists|k: nat| #[trigger] named_ancestor(ps, pid, names, k)
}

/// Whether `p` is released: its lower-cased name is not denied, and it is
/// allowed by name or descends (at any depth) from a process named in
/// `allow_parent`.
pub open spec fn is_matched(p: Proc, ps: Map<u32, Proc>, rule: Rule) -> bool {
    let name = lower(p.name@);
    &&& !rule.deny_name@.contains(name)
    &&& (rule.allow_name@.contains(name) || has_named_ancestor(
        ps,
        p.parent,
        rule.allow_parent@,
    ))
}

/// Whether an ancestor of `p`, at any depth, has a name in `names`
/// (compared in lower case). The walk stops where a parent is missing from
/// `ps`, and after as many steps as `ps` has processes, which a chain of
/// parents can only exceed by going round a cycle.
pub fn has_parent(p: &Proc, ps: &HashMap<u32, Proc>, names: &NameSet) -> (r: bool)
    ensures
        r == has_named_ancestor(ps@, p.parent, names@),
{
    let n: usize = ps.len();
    proof {
        crate::ancestry::lemma_has_parent_within_table(ps@, p.parent, names@);
    }
    let mut parent: u32 = p.parent;
    let mut k: usize = 0;
    while k < n
        invariant
            k <= n,
            n == ps@.dom().len(),
            has_parent_within(ps@, p.parent, names@, n as nat) == has_named_ancestor(
                ps@,
                p.parent,
                names@,
            ),
            has_parent_within(ps@, p.parent, names@, n as nat) == has_parent_within(
                ps@,
                parent,
                names@,
                (n - k) as nat,
            ),
        decreases n - k,
    {
        match ps.get(&parent) {
            None => {
                return false;
            },
            Some(q) => {
                let name = low(q.name.as_str());
                if names.contains(name.as_str()) {
                    return true;
                }
                parent = q.parent;
            },
        }
        k += 1;
    }
    false
}

/// Whether the rule releases `p` (`ps` maps process ids to processes).
pub fn matched(p: &Proc, ps: &HashMap<u32, Proc>, rule: &Rule) -> (r: bool)
    ensures
        r == is_matched(*p, ps@, *rule),
{
    let name = low(p.name.as_str());
    if rule.deny_name.contains(name.as_str()) {
        return false;
    }
    if rule.allow_name.contains(name.as_str()) {
        return true;
    }
    has_parent(p, ps, &rule.allow_parent)
}

} // verus!

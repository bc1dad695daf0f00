//! The configuration model, its validation, and the in-place rewrite of the
//! `run_on_startup` setting in the text of `config.toml`.
use vstd::prelude::*;

use crate::text::{
    blank, chars_of, ends_with_cr, is_blank, is_white_space, join, join_lines, lemma_join_front,
    lemma_line_end_bound, lemma_lines_hold_no_newline, lemma_lines_of_join, lemma_trim_end_nonempty,
    lemma_trim_start_at, line_end, lines, push_all,
    skip_white_space, split_lines, string_from_chars, strip_cr, trim_end, trim_start,
};

verus! {

/// One `[[watch.display]]` section: what to do with one monitor while the
/// watched process holds display control.
#[derive(Debug, Clone, Copy, PartialEq, Eq)]
pub struct DisplayEntry {
    pub monitor: u8,
    pub set_primary: bool,
    pub move_to_monitor: bool,
    pub resolution: Option<[u16; 2]>,
    pub refresh_rate: Option<u16>,
    pub flip_orientation: bool,
}

/// One `[[watch]]` section: a process to watch and the display layout that it
/// asks for.
#[derive(Debug, Clone, PartialEq, Eq)]
pub struct WatchEntry {
    pub process_name: String,
    pub restore_on_exit: bool,
    pub priority: u8,
    pub display: Vec<DisplayEntry>,
}

/// The whole configuration file.
#[derive(Debug, Clone, PartialEq, Eq)]
pub struct Config {
    pub run_on_startup: bool,
    pub watch: Vec<WatchEntry>,
}

impl Config {
    /// Whether this is the configuration of an empty file.
    pub open spec fn is_empty_config(self) -> bool {
        !self.run_on_startup && self.watch@.len() == 0
    }
}

impl Default for Config {
    fn default() -> (c: Config)
        ensures
            c.is_empty_config(),
    {
        Config { run_on_startup: false, watch: Vec::new() }
    }
}

/// Why a configuration was refused.
#[derive(Debug, Clone, PartialEq, Eq)]
pub enum ConfigError {
    /// The text is not a valid configuration; the message comes from the parser.
    Parse { message: String },
    /// A `[[watch]]` section has no `[[watch.display]]` section.
    MissingDisplay { process_name: String },
}

pub open spec fn missing_display_text() -> Seq<char> {
    " must define at least one [[watch.display]] section"@
}

impl ConfigError {
    /// The text of the error, as the user sees it.
    pub open spec fn spec_message(self) -> Seq<char> {
        match self {
            ConfigError::Parse { message } => message@,
            ConfigError::MissingDisplay { process_name } => "watch entry '"@ + process_name@
                + "'"@ + missing_display_text(),
        }
    }

    pub fn message(&self) -> (m: String)
        ensures
            m@ == self.spec_message(),
    {
        match self {
            ConfigError::Parse { message } => message.clone(),
            ConfigError::MissingDisplay { process_name } => {
                let mut m = String::from_str("watch entry '");
                m.append(process_name.as_str());
                m.append("'");
                m.append(" must define at least one [[watch.display]] section");
                m
            },
        }
    }
}

/// Every watch entry defines at least one display section.
pub open spec fn all_entries_have_display(watch: Seq<WatchEntry>) -> bool {
    forall|i: int| 0 <= i < watch.len() ==> (#[trigger] watch[i]).display@.len() != 0
}

/// `i` is the first watch entry without a display section.
pub open spec fn is_first_without_display(watch: Seq<WatchEntry>, i: int) -> bool {
    &&& 0 <= i < watch.len()
    &&& watch[i].display@.len() == 0
    &&& forall|j: int| 0 <= j < i ==> (#[trigger] watch[j]).display@.len() != 0
}

/// The error for the first watch entry without a display section.
pub open spec fn missing_display_error(watch: Seq<WatchEntry>) -> ConfigError {
    let i = choose|i: int| is_first_without_display(watch, i);
    ConfigError::MissingDisplay { process_name: watch[i].process_name }
}

proof fn lemma_first_without_display_unique(watch: Seq<WatchEntry>, i: int)
    requires
        is_first_without_display(watch, i),
    ensures
        missing_display_error(watch) == (ConfigError::MissingDisplay {
            process_name: watch[i].process_name,
        }),
{
    let f = choose|f: int| is_first_without_display(watch, f);
    assert(is_first_without_display(watch, f));
    if f < i {
        assert(watch[f].display@.len() == 0);
    } else if i < f {
        assert(watch[i].display@.len() == 0);
    }
}

proof fn lemma_some_first_without_display(watch: Seq<WatchEntry>)
    requires
        !all_entries_have_display(watch),
    ensures
        exists|i: int| is_first_without_display(watch, i),
    decreases watch.len(),
{
    let p = watch.drop_last();
    if all_entries_have_display(p) {
        let n = watch.len() - 1;
        assert forall|j: int| 0 <= j < n implies (#[trigger] watch[j]).display@.len() != 0 by {
            assert(watch[j] == p[j]);
        }
        if watch[n].display@.len() != 0 {
            assert forall|j: int| 0 <= j < watch.len() implies (#[trigger] watch[j]).display@.len()
                != 0 by {
                if j < n {
                    assert(watch[j] == p[j]);
                }
            }
        }
        assert(is_first_without_display(watch, n));
    } else {
        lemma_some_first_without_display(p);
        let i = choose|i: int| is_first_without_display(p, i);
        assert forall|j: int| 0 <= j < i implies (#[trigger] watch[j]).display@.len() != 0 by {
            assert(watch[j] == p[j]);
        }
        assert(watch[i] == p[i]);
        assert(is_first_without_display(watch, i));
    }
}

/// Every watch entry must define at least one display section. The error
/// names the first entry that defines none.
pub fn validate_config(config: &Config) -> (res: Result<(), ConfigError>)
    ensures
        (res is Ok) == all_entries_have_display(config.watch@),
        res matches Err(e) ==> e == missing_display_error(config.watch@),
{
    let mut i: usize = 0;
    while i < config.watch.len()
        invariant
            i <= config.watch@.len(),
            forall|j: int| 0 <= j < i ==> (#[trigger] config.watch@[j]).display@.len() != 0,
        decreases config.watch@.len() - i,
    {
        if config.watch[i].display.len() == 0 {
            proof {
                assert(is_first_without_display(config.watch@, i as int));
                lemma_first_without_display_unique(config.watch@, i as int);
            }
            return Err(
                ConfigError::MissingDisplay { process_name: config.watch[i].process_name.clone() },
            );
        }
        i = i + 1;
    }
    Ok(())
}

/// What reading a configuration text gives: an empty configuration for a
/// blank text, else the parser's error, or the parsed configuration if it
/// passes validation.
pub open spec fn spec_parse_outcome(raw: Seq<char>, parsed: Result<Config, String>) -> Result<
    Config,
    ConfigError,
> {
    match parsed {
        Err(message) => Err(ConfigError::Parse { message }),
        Ok(config) => if all_entries_have_display(config.watch@) {
            Ok(config)
        } else {
            Err(missing_display_error(config.watch@))
        },
    }
}

/// Turns the text of `config.toml` and what the TOML parser made of it into a
/// configuration. A blank file is an empty configuration whatever the parser
/// said; otherwise a parse error is reported, and a parsed configuration must
/// pass `validate_config`.
pub fn parse_config_contents(raw: &str, parsed: Result<Config, String>) -> (res: Result<
    Config,
    ConfigError,
>)
    ensures
        is_blank(raw@) ==> (res matches Ok(c) && c.is_empty_config()),
        !is_blank(raw@) ==> res == spec_parse_outcome(raw@, parsed),
{
    let chars = chars_of(raw);
    if blank(chars.as_slice()) {
        return Ok(Config::default());
    }
    match parsed {
        Err(message) => Err(ConfigError::Parse { message }),
        Ok(config) => {
            match validate_config(&config) {
                Ok(()) => Ok(config),
                Err(e) => Err(e),
            }
        },
    }
}

// ---------------------------------------------------------------------------
// Rewriting `run_on_startup` in the configuration text.
// ---------------------------------------------------------------------------

/// The key of the startup setting.
pub open spec fn startup_key() -> Seq<char> {
    seq!['r', 'u', 'n', '_', 'o', 'n', '_', 's', 't', 'a', 'r', 't', 'u', 'p']
}

/// A line that assigns `run_on_startup`: after leading white space, the key,
/// then optional white space, then `=`.
pub open spec fn is_assignment(line: Seq<char>) -> bool {
    let t = trim_start(line);
    let k = startup_key();
    &&& t.len() >= k.len()
    &&& t.take(k.len() as int) == k
    &&& trim_start(t.skip(k.len() as int)).len() > 0
    &&& trim_start(t.skip(k.len() as int))[0] == '='
}

/// A comment line: its first character that is not white space is `#`.
pub open spec fn is_comment(line: Seq<char>) -> bool {
    trim_start(line).len() > 0 && trim_start(line)[0] == '#'
}

/// The lines without those that assign `run_on_startup`.
pub open spec fn without_assignments(ls: Seq<Seq<char>>) -> Seq<Seq<char>>
    decreases ls.len(),
{
    if ls.len() == 0 {
        ls
    } else if is_assignment(ls.last()) {
        without_assignments(ls.drop_last())
    } else {
        without_assignments(ls.drop_last()).push(ls.last())
    }
}

/// The lines from the first one that is not blank on.
pub open spec fn drop_leading_blank_lines(ls: Seq<Seq<char>>) -> Seq<Seq<char>>
    decreases ls.len(),
{
    if ls.len() > 0 && is_blank(ls[0]) {
        drop_leading_blank_lines(ls.drop_first())
    } else {
        ls
    }
}

/// How many comment lines open `ls`.
pub open spec fn leading_comment_count(ls: Seq<Seq<char>>) -> nat
    decreases ls.len(),
{
    if ls.len() > 0 && is_comment(ls[0]) {
        1 + leading_comment_count(ls.drop_first())
    } else {
        0
    }
}

/// The text of a boolean in TOML.
pub open spec fn bool_text(b: bool) -> Seq<char> {
    if b {
        seq!['t', 'r', 'u', 'e']
    } else {
        seq!['f', 'a', 'l', 's', 'e']
    }
}

/// The line `run_on_startup = <enabled>`.
pub open spec fn assignment_line(enabled: bool) -> Seq<char> {
    startup_key() + seq![' ', '=', ' '] + bool_text(enabled)
}

/// The lines of the rewritten file: every assignment of `run_on_startup`
/// removed, leading blank lines dropped, then the opening comment block (if
/// any) and one blank line, the new assignment, and, when anything follows,
/// one blank line and the rest without its leading blank lines.
pub open spec fn rewritten_lines(raw: Seq<char>, enabled: bool) -> Seq<Seq<char>> {
    rewrite_line_list(lines(raw), enabled)
}

/// The rewrite of `rewritten_lines`, on any list of lines.
pub open spec fn rewrite_line_list(ls: Seq<Seq<char>>, enabled: bool) -> Seq<Seq<char>> {
    let body = drop_leading_blank_lines(without_assignments(ls));
    let k = leading_comment_count(body) as int;
    let rest = drop_leading_blank_lines(body.skip(k));
    let head = if k > 0 {
        body.take(k).push(Seq::<char>::empty())
    } else {
        Seq::<Seq<char>>::empty()
    };
    let tail = if rest.len() > 0 {
        seq![Seq::<char>::empty()] + rest
    } else {
        Seq::<Seq<char>>::empty()
    };
    head.push(assignment_line(enabled)) + tail
}

/// Whether the text holds a `"\r\n"` line ending.
pub open spec fn has_crlf(raw: Seq<char>) -> bool {
    exists|i: int| 0 <= i < raw.len() - 1 && #[trigger] raw[i] == '\r' && raw[i + 1] == '\n'
}

/// The line ending that a rewrite of `raw` uses: `"\r\n"` when `raw` holds
/// one, else `"\n"`.
pub open spec fn newline_of(raw: Seq<char>) -> Seq<char> {
    if has_crlf(raw) {
        seq!['\r', '\n']
    } else {
        seq!['\n']
    }
}

/// The whole rewritten text: the rewritten lines joined by the file's line
/// ending, with a final line ending when `raw` ended with `'\n'`.
pub open spec fn spec_rewrite(raw: Seq<char>, enabled: bool) -> Seq<char> {
    join(rewritten_lines(raw, enabled), newline_of(raw)) + if raw.len() > 0 && raw.last()
        == '\n' {
        newline_of(raw)
    } else {
        Seq::<char>::empty()
    }
}

/// Whether `line` starts with the startup key, then optional white space and `=`.
fn assignment_chars(line: &[char]) -> (b: bool)
    ensures
        b == is_assignment(line@),
{
    let start = skip_white_space(line, 0);
    proof {
        lemma_trim_start_at(line@, start as int);
    }
    let key: [char; 14] = ['r', 'u', 'n', '_', 'o', 'n', '_', 's', 't', 'a', 'r', 't', 'u', 'p'];
    let ghost t = line@.skip(start as int);
    assert(key@ =~= startup_key());
    if line.len() - start < 14 {
        assert(t.len() < 14);
        return false;
    }
    let mut j: usize = 0;
    while j < 14
        invariant
            start + 14 <= line@.len(),
            line@.len() <= usize::MAX,
            j <= 14,
            t == line@.skip(start as int),
            trim_start(line@) == t,
            key@ == startup_key(),
            forall|m: int| 0 <= m < j ==> t[m] == key@[m],
        decreases 14 - j,
    {
        if line[start + j] != key[j] {
            assert(t.take(14)[j as int] != startup_key()[j as int]);
            assert(t.take(14) != startup_key());
            assert(startup_key().len() == 14);
            return false;
        }
        j = j + 1;
    }
    assert(t.take(14) =~= startup_key());
    let after = skip_white_space(line, start + 14);
    proof {
        let u = t.skip(14);
        assert forall|m: int| 0 <= m < after - start - 14 implies is_white_space(#[trigger] u[m]) by {
            assert(u[m] == line@[m + start + 14]);
        }
        if after < line@.len() {
            assert(u[after - start - 14] == line@[after as int]);
        }
        lemma_trim_start_at(u, after - start - 14);
        assert(u.skip(after - start - 14) =~= line@.skip(after as int));
        assert(t.skip(14) == u);
        if after < line@.len() {
            assert(line@.skip(after as int)[0] == line@[after as int]);
        }
    }
    after < line.len() && line[after] == '='
}

/// Whether the line assigns `run_on_startup`.
pub fn is_run_on_startup_assignment(line: &str) -> (b: bool)
    ensures
        b == is_assignment(line@),
{
    let chars = chars_of(line);
    assignment_chars(chars.as_slice())
}

/// Whether the line is a comment.
fn comment_chars(line: &[char]) -> (b: bool)
    ensures
        b == is_comment(line@),
{
    let start = skip_white_space(line, 0);
    proof {
        lemma_trim_start_at(line@, start as int);
    }
    start < line.len() && line[start] == '#'
}

/// The line ending to write back: `"\r\n"` when the text holds one, else `"\n"`.
pub fn newline_for(raw: &str) -> (nl: &'static str)
    ensures
        nl@ == newline_of(raw@),
{
    let chars = chars_of(raw);
    proof {
        reveal_strlit("\r\n");
        reveal_strlit("\n");
    }
    if crlf_in(chars.as_slice()) {
        "\r\n"
    } else {
        "\n"
    }
}

fn crlf_in(s: &[char]) -> (b: bool)
    ensures
        b == has_crlf(s@),
{
    let mut i: usize = 0;
    while i < s.len() && i + 1 < s.len()
        invariant
            i <= s@.len(),
            forall|j: int| 0 <= j < i && j < s@.len() - 1 ==> !(#[trigger] s@[j] == '\r' && s@[j + 1] == '\n'),
        decreases s@.len() - i,
    {
        if s[i] == '\r' && s[i + 1] == '\n' {
            return true;
        }
        i = i + 1;
    }
    false
}

proof fn lemma_drop_leading_blank_lines_at(ls: Seq<Seq<char>>, k: int)
    requires
        0 <= k <= ls.len(),
        forall|i: int| 0 <= i < k ==> is_blank(#[trigger] ls[i]),
        k < ls.len() ==> !is_blank(ls[k]),
    ensures
        drop_leading_blank_lines(ls) == ls.skip(k),
    decreases k,
{
    if k == 0 {
        assert(ls.skip(0) =~= ls);
    } else {
        let t = ls.drop_first();
        assert forall|i: int| 0 <= i < k - 1 implies is_blank(#[trigger] t[i]) by {
            assert(t[i] == ls[i + 1]);
        }
        lemma_drop_leading_blank_lines_at(t, k - 1);
        assert(t.skip(k - 1) =~= ls.skip(k));
    }
}

proof fn lemma_leading_comment_count_at(ls: Seq<Seq<char>>, k: int)
    requires
        0 <= k <= ls.len(),
        forall|i: int| 0 <= i < k ==> is_comment(#[trigger] ls[i]),
        k < ls.len() ==> !is_comment(ls[k]),
    ensures
        leading_comment_count(ls) == k,
    decreases k,
{
    if k > 0 {
        let t = ls.drop_first();
        assert forall|i: int| 0 <= i < k - 1 implies is_comment(#[trigger] t[i]) by {
            assert(t[i] == ls[i + 1]);
        }
        lemma_leading_comment_count_at(t, k - 1);
    }
}

/// Index of the first line at or after `from` that is not blank.
fn skip_blank_lines(ls: &Vec<Vec<char>>, from: usize) -> (k: usize)
    requires
        from <= ls@.len(),
    ensures
        from <= k <= ls@.len(),
        forall|i: int| from <= i < k ==> is_blank(#[trigger] ls@[i]@),
        k < ls@.len() ==> !is_blank(ls@[k as int]@),
{
    let mut k = from;
    while k < ls.len() && blank(ls[k].as_slice())
        invariant
            from <= k <= ls@.len(),
            forall|i: int| from <= i < k ==> is_blank(#[trigger] ls@[i]@),
        decreases ls@.len() - k,
    {
        k = k + 1;
    }
    k
}

proof fn lemma_vec_char_deep_view(v: Vec<char>)
    ensures
        v.deep_view() == v@,
{
    assert(v.deep_view() =~= v@);
}

/// Appends a copy of the line to `out`.
fn push_line(out: &mut Vec<Vec<char>>, line: &[char])
    ensures
        final(out).deep_view() == old(out).deep_view().push(line@),
{
    let mut copy: Vec<char> = Vec::new();
    push_all(&mut copy, line);
    assert(copy@ =~= line@);
    proof {
        lemma_vec_char_deep_view(copy);
    }
    let ghost prev = out.deep_view();
    out.push(copy);
    assert(out.deep_view() =~= prev.push(line@));
}

/// Rewrites the text of `config.toml` so that it sets `run_on_startup` to
/// `enabled`: every existing assignment goes, and one new assignment stands
/// after the opening comment block, set off by blank lines. The file's line
/// ending and final newline are kept.
pub fn rewrite_run_on_startup_entry(raw: &str, enabled: bool) -> (out: String)
    ensures
        out@ == spec_rewrite(raw@, enabled),
{
    let chars = chars_of(raw);
    let all = split_lines(chars.as_slice());

    // Drop every assignment of the setting.
    let mut kept: Vec<Vec<char>> = Vec::new();
    let mut i: usize = 0;
    while i < all.len()
        invariant
            i <= all@.len(),
            all.deep_view() == lines(raw@),
            kept.deep_view() == without_assignments(all.deep_view().take(i as int)),
        decreases all@.len() - i,
    {
        let ghost prefix = all.deep_view().take(i as int);
        let ghost next = all.deep_view().take(i + 1);
        assert(next.drop_last() =~= prefix);
        assert(all@[i as int].deep_view() =~= all@[i as int]@);
        assert(next.last() == all@[i as int]@);
        if !assignment_chars(all[i].as_slice()) {
            push_line(&mut kept, all[i].as_slice());
        }
        i = i + 1;
    }
    assert(all.deep_view().take(i as int) =~= all.deep_view());
    let ghost filtered = kept.deep_view();
    assert(forall|j: int| 0 <= j < kept@.len() ==> #[trigger] kept@[j]@ == filtered[j]) by {
        assert forall|j: int| 0 <= j < kept@.len() implies #[trigger] kept@[j]@ == filtered[j] by {
            assert(kept@[j].deep_view() =~= kept@[j]@);
        }
    }

    // The body starts at the first line that is not blank.
    let start = skip_blank_lines(&kept, 0);
    proof {
        lemma_drop_leading_blank_lines_at(filtered, start as int);
    }
    let ghost body = filtered.skip(start as int);

    // The opening comment block.
    let mut k: usize = 0;
    while start + k < kept.len() && comment_chars(kept[start + k].as_slice())
        invariant
            start + k <= kept@.len(),
            forall|j: int| 0 <= j < k ==> is_comment(#[trigger] body[j]),
            body == filtered.skip(start as int),
            filtered.len() == kept@.len(),
            kept@.len() <= usize::MAX,
            forall|j: int| 0 <= j < kept@.len() ==> #[trigger] kept@[j]@ == filtered[j],
        decreases kept@.len() - start - k,
    {
        assert(body[k as int] == filtered[start + k]);
        k = k + 1;
    }
    proof {
        if start + k < kept@.len() {
            assert(body[k as int] == filtered[start + k]);
        }
        lemma_leading_comment_count_at(body, k as int);
    }

    // The rest, from its first line that is not blank.
    let rest_start = skip_blank_lines(&kept, start + k);
    let ghost after = body.skip(k as int);
    proof {
        assert forall|j: int| 0 <= j < rest_start - start - k implies is_blank(#[trigger] after[j]) by {
            assert(after[j] == filtered[j + start + k]);
        }
        if rest_start < kept@.len() {
            assert(after[rest_start - start - k] == filtered[rest_start as int]);
        }
        lemma_drop_leading_blank_lines_at(after, rest_start - start - k);
    }
    let ghost rest = after.skip(rest_start - start - k);
    assert(rest =~= filtered.skip(rest_start as int));

    // Assemble the new lines.
    let mut out_lines: Vec<Vec<char>> = Vec::new();
    let mut j: usize = 0;
    while j < k
        invariant
            j <= k,
            start + k <= kept@.len(),
            body == filtered.skip(start as int),
            filtered.len() == kept@.len(),
            forall|m: int| 0 <= m < kept@.len() ==> #[trigger] kept@[m]@ == filtered[m],
            out_lines.deep_view() == body.take(j as int),
            kept@.len() <= usize::MAX,
        decreases k - j,
    {
        push_line(&mut out_lines, kept[start + j].as_slice());
        assert(out_lines.deep_view() =~= body.take(j + 1));
        j = j + 1;
    }
    let empty: Vec<char> = Vec::new();
    if k > 0 {
        push_line(&mut out_lines, empty.as_slice());
    }
    let mut assign: Vec<char> = Vec::new();
    push_all(&mut assign, &['r', 'u', 'n', '_', 'o', 'n', '_', 's', 't', 'a', 'r', 't', 'u', 'p']);
    push_all(&mut assign, &[' ', '=', ' ']);
    if enabled {
        push_all(&mut assign, &['t', 'r', 'u', 'e']);
    } else {
        push_all(&mut assign, &['f', 'a', 'l', 's', 'e']);
    }
    assert(assign@ =~= assignment_line(enabled));
    push_line(&mut out_lines, assign.as_slice());
    let ghost head = out_lines.deep_view();
    if rest_start < kept.len() {
        push_line(&mut out_lines, empty.as_slice());
        let mut m = rest_start;
        while m < kept.len()
            invariant
                rest_start <= m <= kept@.len(),
                filtered.len() == kept@.len(),
                forall|q: int| 0 <= q < kept@.len() ==> #[trigger] kept@[q]@ == filtered[q],
                out_lines.deep_view() == head.push(Seq::<char>::empty()) + filtered.subrange(
                    rest_start as int,
                    m as int,
                ),
            decreases kept@.len() - m,
        {
            push_line(&mut out_lines, kept[m].as_slice());
            assert(out_lines.deep_view() =~= head.push(Seq::<char>::empty()) + filtered.subrange(
                rest_start as int,
                m + 1,
            ));
            m = m + 1;
        }
        assert(filtered.subrange(rest_start as int, m as int) =~= rest);
        assert(out_lines.deep_view() =~= head + (seq![Seq::<char>::empty()] + rest));
    } else {
        assert(out_lines.deep_view() =~= head + Seq::<Seq<char>>::empty());
    }
    proof {
        assert(empty@ =~= Seq::<char>::empty());
        if k > 0 {
            assert(head =~= body.take(k as int).push(Seq::<char>::empty()).push(assignment_line(enabled)));
        } else {
            assert(head =~= Seq::<Seq<char>>::empty().push(assignment_line(enabled)));
        }
        assert(out_lines.deep_view() == rewritten_lines(raw@, enabled));
    }

    // Join with the file's line ending.
    let crlf = crlf_in(chars.as_slice());
    let nl: &[char] = if crlf {
        &['\r', '\n']
    } else {
        &['\n']
    };
    assert(nl@ =~= newline_of(raw@));
    let mut text = join_lines(&out_lines, nl);
    let n = chars.len();
    if n > 0 && chars[n - 1] == '\n' {
        push_all(&mut text, nl);
    } else {
        assert(text@ =~= text@ + Seq::<char>::empty());
    }
    string_from_chars(text.as_slice())
}

proof fn lemma_without_assignments_clean(ls: Seq<Seq<char>>)
    ensures
        forall|i: int|
            0 <= i < without_assignments(ls).len() ==> !is_assignment(
                #[trigger] without_assignments(ls)[i],
            ),
    decreases ls.len(),
{
    if ls.len() > 0 {
        lemma_without_assignments_clean(ls.drop_last());
        let w = without_assignments(ls.drop_last());
        if !is_assignment(ls.last()) {
            assert forall|i: int| 0 <= i < w.len() + 1 implies !is_assignment(
                #[trigger] w.push(ls.last())[i],
            ) by {
                if i < w.len() {
                    assert(w.push(ls.last())[i] == w[i]);
                }
            }
        }
    }
}

proof fn lemma_drop_leading_blank_lines_suffix(ls: Seq<Seq<char>>)
    ensures
        exists|k: int| 0 <= k <= ls.len() && drop_leading_blank_lines(ls) == ls.skip(k),
    decreases ls.len(),
{
    if ls.len() > 0 && is_blank(ls[0]) {
        lemma_drop_leading_blank_lines_suffix(ls.drop_first());
        let k = choose|k: int|
            0 <= k <= ls.drop_first().len() && drop_leading_blank_lines(ls.drop_first())
                == ls.drop_first().skip(k);
        assert(ls.drop_first().skip(k) =~= ls.skip(k + 1));
    } else {
        assert(ls.skip(0) =~= ls);
    }
}

proof fn lemma_assignment_line_is_assignment(enabled: bool)
    ensures
        is_assignment(assignment_line(enabled)),
{
    let l = assignment_line(enabled);
    assert(trim_start(l) == l);
    assert(l.take(14) =~= startup_key());
    let after = l.skip(14);
    assert(after[0] == ' ');
    assert(is_white_space(' '));
    assert(after.drop_first() =~= l.skip(15));
    assert(!is_white_space(l.skip(15)[0]));
    assert(trim_start(after.drop_first()) == after.drop_first());
}

proof fn lemma_empty_not_assignment()
    ensures
        !is_assignment(Seq::<char>::empty()),
{
    assert(trim_start(Seq::<char>::empty()) =~= Seq::<char>::empty());
}

/// After a rewrite the file assigns `run_on_startup` exactly once, to the
/// requested value: one line of the rewritten lines is the new assignment,
/// and no other line assigns the setting.
pub proof fn law_rewrite_assigns_exactly_once(raw: Seq<char>, enabled: bool)
    ensures
        ({
            let out = rewritten_lines(raw, enabled);
            exists|i: int|
                0 <= i < out.len() && out[i] == assignment_line(enabled) && forall|j: int|
                    0 <= j < out.len() && j != i ==> !is_assignment(#[trigger] out[j])
        }),
{
    let filtered = without_assignments(lines(raw));
    lemma_without_assignments_clean(lines(raw));
    let body = drop_leading_blank_lines(filtered);
    lemma_drop_leading_blank_lines_suffix(filtered);
    let s = choose|s: int| 0 <= s <= filtered.len() && body == filtered.skip(s);
    let k = leading_comment_count(body) as int;
    lemma_leading_comment_count_bound(body);
    let after = body.skip(k);
    let rest = drop_leading_blank_lines(after);
    lemma_drop_leading_blank_lines_suffix(after);
    let r = choose|r: int| 0 <= r <= after.len() && rest == after.skip(r);
    lemma_empty_not_assignment();
    let head = if k > 0 {
        body.take(k).push(Seq::<char>::empty())
    } else {
        Seq::<Seq<char>>::empty()
    };
    let tail = if rest.len() > 0 {
        seq![Seq::<char>::empty()] + rest
    } else {
        Seq::<Seq<char>>::empty()
    };
    let out = rewritten_lines(raw, enabled);
    assert(out == head.push(assignment_line(enabled)) + tail);
    let i = head.len() as int;
    assert(out[i] == assignment_line(enabled));
    assert forall|j: int| 0 <= j < out.len() && j != i implies !is_assignment(#[trigger] out[j]) by {
        if j < i {
            assert(out[j] == head[j]);
            if j < k {
                assert(head[j] == body[j]);
                assert(body[j] == filtered[j + s]);
            }
        } else {
            let t = j - i - 1;
            assert(out[j] == tail[t]);
            if t > 0 {
                assert(tail[t] == rest[t - 1]);
                assert(rest[t - 1] == filtered[s + k + r + t - 1]);
            }
        }
    }
}

/// The rewritten lines laid out: the opening comments `c` and a blank line
/// (when there are comments), the assignment `x`, then a blank line and
/// `rest` (when anything follows).
pub open spec fn layout(c: Seq<Seq<char>>, x: Seq<char>, rest: Seq<Seq<char>>) -> Seq<
    Seq<char>,
> {
    let head = if c.len() > 0 {
        c.push(Seq::<char>::empty())
    } else {
        Seq::<Seq<char>>::empty()
    };
    let tail = if rest.len() > 0 {
        seq![Seq::<char>::empty()] + rest
    } else {
        Seq::<Seq<char>>::empty()
    };
    head.push(x) + tail
}

/// The parts of a rewritten file as a rewrite leaves them: comments that do
/// not assign the setting, and a rest that does not assign it and opens with
/// a line that is not blank (nor, when no comments come first, a comment).
pub open spec fn parts_in_place(c: Seq<Seq<char>>, rest: Seq<Seq<char>>) -> bool {
    &&& forall|i: int| 0 <= i < c.len() ==> is_comment(#[trigger] c[i]) && !is_assignment(c[i])
    &&& forall|i: int| 0 <= i < rest.len() ==> !is_assignment(#[trigger] rest[i])
    &&& rest.len() > 0 ==> !is_blank(rest[0])
    &&& rest.len() > 0 && c.len() == 0 ==> !is_comment(rest[0])
}

proof fn lemma_without_assignments_keeps(ls: Seq<Seq<char>>, p: spec_fn(Seq<char>) -> bool)
    requires
        forall|i: int| 0 <= i < ls.len() ==> p(#[trigger] ls[i]),
    ensures
        forall|i: int|
            0 <= i < without_assignments(ls).len() ==> p(#[trigger] without_assignments(ls)[i]),
    decreases ls.len(),
{
    if ls.len() > 0 {
        let front = ls.drop_last();
        assert forall|i: int| 0 <= i < front.len() implies p(#[trigger] front[i]) by {
            assert(front[i] == ls[i]);
        }
        lemma_without_assignments_keeps(front, p);
        let w = without_assignments(front);
        if !is_assignment(ls.last()) {
            assert forall|i: int| 0 <= i < w.len() + 1 implies p(#[trigger] w.push(ls.last())[i]) by {
                if i < w.len() {
                    assert(w.push(ls.last())[i] == w[i]);
                }
            }
        }
    }
}

proof fn lemma_without_assignments_concat(a: Seq<Seq<char>>, b: Seq<Seq<char>>)
    ensures
        without_assignments(a + b) == without_assignments(a) + without_assignments(b),
    decreases b.len(),
{
    if b.len() == 0 {
        assert(a + b =~= a);
        assert(without_assignments(a) + without_assignments(b) =~= without_assignments(a));
    } else {
        lemma_without_assignments_concat(a, b.drop_last());
        assert((a + b).drop_last() =~= a + b.drop_last());
        assert((a + b).last() == b.last());
        if !is_assignment(b.last()) {
            assert(without_assignments(a) + without_assignments(b.drop_last()).push(b.last())
                =~= (without_assignments(a) + without_assignments(b.drop_last())).push(b.last()));
        }
    }
}

proof fn lemma_without_assignments_none(ls: Seq<Seq<char>>)
    requires
        forall|i: int| 0 <= i < ls.len() ==> !is_assignment(#[trigger] ls[i]),
    ensures
        without_assignments(ls) == ls,
    decreases ls.len(),
{
    if ls.len() > 0 {
        let front = ls.drop_last();
        assert forall|i: int| 0 <= i < front.len() implies !is_assignment(#[trigger] front[i]) by {
            assert(front[i] == ls[i]);
        }
        lemma_without_assignments_none(front);
        assert(front.push(ls.last()) =~= ls);
    }
}

proof fn lemma_leading_comment_count_props(ls: Seq<Seq<char>>)
    ensures
        leading_comment_count(ls) <= ls.len(),
        forall|i: int| 0 <= i < leading_comment_count(ls) ==> is_comment(#[trigger] ls[i]),
        leading_comment_count(ls) < ls.len() ==> !is_comment(ls[leading_comment_count(ls) as int]),
    decreases ls.len(),
{
    if ls.len() > 0 && is_comment(ls[0]) {
        let t = ls.drop_first();
        lemma_leading_comment_count_props(t);
        assert forall|i: int| 0 <= i < leading_comment_count(ls) implies is_comment(
            #[trigger] ls[i],
        ) by {
            if i > 0 {
                assert(ls[i] == t[i - 1]);
            }
        }
        if leading_comment_count(ls) < ls.len() {
            assert(ls[leading_comment_count(ls) as int] == t[leading_comment_count(t) as int]);
        }
    }
}

proof fn lemma_drop_leading_blank_lines_first(ls: Seq<Seq<char>>)
    ensures
        drop_leading_blank_lines(ls).len() > 0 ==> !is_blank(drop_leading_blank_lines(ls)[0]),
    decreases ls.len(),
{
    if ls.len() > 0 && is_blank(ls[0]) {
        lemma_drop_leading_blank_lines_first(ls.drop_first());
    }
}

proof fn lemma_comment_not_blank(l: Seq<char>)
    requires
        is_comment(l),
    ensures
        !is_blank(l),
{
    let t = trim_start(l);
    assert(!is_white_space(t[0]));
    lemma_trim_end_nonempty(t);
}

proof fn lemma_empty_line_facts()
    ensures
        is_blank(Seq::<char>::empty()),
        !is_comment(Seq::<char>::empty()),
        !is_assignment(Seq::<char>::empty()),
{
    lemma_empty_not_assignment();
    assert(trim_start(Seq::<char>::empty()) =~= Seq::<char>::empty());
    assert(trim_end(Seq::<char>::empty()) =~= Seq::<char>::empty());
}

/// A rewrite is the layout of its opening comments, the new assignment and
/// the rest, and those parts are in place; a property of every given line
/// holds of every line of the parts.
proof fn lemma_rewrite_parts(ls: Seq<Seq<char>>, enabled: bool, p: spec_fn(Seq<char>) -> bool)
    requires
        forall|i: int| 0 <= i < ls.len() ==> p(#[trigger] ls[i]),
    ensures
        ({
            let body = drop_leading_blank_lines(without_assignments(ls));
            let k = leading_comment_count(body) as int;
            let c = body.take(k);
            let rest = drop_leading_blank_lines(body.skip(k));
            &&& rewrite_line_list(ls, enabled) == layout(c, assignment_line(enabled), rest)
            &&& parts_in_place(c, rest)
            &&& forall|i: int| 0 <= i < c.len() ==> p(#[trigger] c[i])
            &&& forall|i: int| 0 <= i < rest.len() ==> p(#[trigger] rest[i])
        }),
{
    let filtered = without_assignments(ls);
    lemma_without_assignments_clean(ls);
    lemma_without_assignments_keeps(ls, p);
    let body = drop_leading_blank_lines(filtered);
    lemma_drop_leading_blank_lines_suffix(filtered);
    lemma_drop_leading_blank_lines_first(filtered);
    let s = choose|s: int| 0 <= s <= filtered.len() && body == filtered.skip(s);
    let k = leading_comment_count(body) as int;
    lemma_leading_comment_count_props(body);
    let c = body.take(k);
    let after = body.skip(k);
    let rest = drop_leading_blank_lines(after);
    lemma_drop_leading_blank_lines_suffix(after);
    lemma_drop_leading_blank_lines_first(after);
    let r = choose|r: int| 0 <= r <= after.len() && rest == after.skip(r);
    assert forall|i: int| 0 <= i < c.len() implies is_comment(#[trigger] c[i]) && !is_assignment(
        c[i],
    ) && p(c[i]) by {
        assert(c[i] == body[i]);
        assert(body[i] == filtered[i + s]);
    }
    assert forall|i: int| 0 <= i < rest.len() implies !is_assignment(#[trigger] rest[i]) && p(
        rest[i],
    ) by {
        assert(rest[i] == filtered[i + s + k + r]);
    }
    if rest.len() > 0 && k == 0 {
        assert(after =~= body);
        if body.len() > 0 {
            assert(!is_blank(body[0]));
        }
        assert(rest == body);
    }
    assert(c.len() == k);
}

/// Rewriting a laid-out file again gives the same layout with the new
/// assignment in place of the old one.
proof fn lemma_rewrite_layout(c: Seq<Seq<char>>, x: Seq<char>, rest: Seq<Seq<char>>, enabled: bool)
    requires
        parts_in_place(c, rest),
        is_assignment(x),
    ensures
        rewrite_line_list(layout(c, x, rest), enabled) == layout(
            c,
            assignment_line(enabled),
            rest,
        ),
{
    let e = Seq::<char>::empty();
    lemma_empty_line_facts();
    let head = if c.len() > 0 {
        c.push(e)
    } else {
        Seq::<Seq<char>>::empty()
    };
    let tail = if rest.len() > 0 {
        seq![e] + rest
    } else {
        Seq::<Seq<char>>::empty()
    };
    let o = layout(c, x, rest);
    assert(o == head.push(x) + tail);
    assert forall|i: int| 0 <= i < head.len() implies !is_assignment(#[trigger] head[i]) by {
        if i < c.len() {
            assert(head[i] == c[i]);
        }
    }
    assert forall|i: int| 0 <= i < tail.len() implies !is_assignment(#[trigger] tail[i]) by {
        if i > 0 {
            assert(tail[i] == rest[i - 1]);
        }
    }
    lemma_without_assignments_concat(head.push(x), tail);
    assert(head.push(x).drop_last() =~= head);
    lemma_without_assignments_none(head);
    lemma_without_assignments_none(tail);
    let w = head + tail;
    assert(without_assignments(o) == w);
    let body = drop_leading_blank_lines(w);
    if rest.len() > 0 {
        assert(tail.drop_first() =~= rest);
    }
    if c.len() > 0 {
        assert(w[0] == c[0]);
        lemma_comment_not_blank(c[0]);
        assert(body == w);
        assert forall|i: int| 0 <= i < c.len() implies is_comment(#[trigger] w[i]) by {
            assert(w[i] == c[i]);
        }
        assert(w[c.len() as int] == e);
        lemma_leading_comment_count_at(w, c.len() as int);
        let k = c.len() as int;
        assert(w.skip(k) =~= seq![e] + tail);
        assert((seq![e] + tail).drop_first() =~= tail);
        assert(drop_leading_blank_lines(w.skip(k)) == drop_leading_blank_lines(tail));
        if rest.len() > 0 {
            assert(drop_leading_blank_lines(tail) == drop_leading_blank_lines(rest));
        }
        assert(drop_leading_blank_lines(tail) == rest);
        assert(w.take(k) =~= c);
    } else {
        assert(w =~= tail);
        if rest.len() > 0 {
            assert(tail[0] == e);
            assert(drop_leading_blank_lines(tail) == drop_leading_blank_lines(tail.drop_first()));
            assert(drop_leading_blank_lines(rest) == rest);
        } else {
            assert(tail.len() == 0);
        }
        assert(body == rest);
        assert(leading_comment_count(body) == 0);
        assert(body.skip(0) =~= body);
    }
}

/// With `"\r\n"` as line ending, a text of two lines or more, or one that
/// ends with a line ending, holds a `"\r\n"`.
proof fn lemma_join_holds_crlf(ls: Seq<Seq<char>>, trailing: bool)
    requires
        ls.len() > 0,
        ls.len() >= 2 || trailing,
    ensures
        has_crlf(join(ls, seq!['\r', '\n']) + (if trailing {
            seq!['\r', '\n']
        } else {
            Seq::<char>::empty()
        })),
{
    let sep = seq!['\r', '\n'];
    let end = if trailing {
        sep
    } else {
        Seq::<char>::empty()
    };
    let s = join(ls, sep) + end;
    if ls.len() >= 2 {
        lemma_join_front(ls, sep);
        let i = ls[0].len() as int;
        assert(s == ls[0] + sep + (join(ls.drop_first(), sep) + end));
        assert(s[i] == '\r');
        assert(s[i + 1] == '\n');
    } else {
        let i = join(ls, sep).len() as int;
        assert(s[i] == '\r');
        assert(s[i + 1] == '\n');
    }
}

/// With `"\n"` as line ending, lines that hold no `'\n'` and do not end in
/// `'\r'` make a text without `"\r\n"`.
proof fn lemma_join_lf_no_crlf(ls: Seq<Seq<char>>, trailing: bool)
    requires
        forall|i: int, j: int| 0 <= i < ls.len() && 0 <= j < ls[i].len() ==> #[trigger] ls[i][j] != '\n',
        forall|i: int| 0 <= i < ls.len() ==> !ends_with_cr(#[trigger] ls[i]),
    ensures
        !has_crlf(join(ls, seq!['\n']) + (if trailing {
            seq!['\n']
        } else {
            Seq::<char>::empty()
        })),
    decreases ls.len(),
{
    let sep = seq!['\n'];
    let end = if trailing {
        sep
    } else {
        Seq::<char>::empty()
    };
    let s = join(ls, sep) + end;
    if ls.len() == 0 {
        assert forall|i: int| 0 <= i < s.len() - 1 implies !(#[trigger] s[i] == '\r' && s[i + 1]
            == '\n') by {}
    } else {
        let x = ls[0];
        assert(!ends_with_cr(ls[0]));
        if ls.len() == 1 {
            assert(s == x + end);
            assert forall|i: int| 0 <= i < s.len() - 1 implies !(#[trigger] s[i] == '\r' && s[i
                + 1] == '\n') by {
                if i + 1 < x.len() {
                    assert(s[i + 1] == ls[0][i + 1]);
                } else {
                    assert(s[i] == x[x.len() - 1]);
                }
            }
        } else {
            let rest = ls.drop_first();
            assert forall|i: int, j: int|
                0 <= i < rest.len() && 0 <= j < rest[i].len() implies #[trigger] rest[i][j]
                    != '\n' by {
                assert(rest[i] == ls[i + 1]);
            }
            assert forall|i: int| 0 <= i < rest.len() implies !ends_with_cr(#[trigger] rest[i]) by {
                assert(rest[i] == ls[i + 1]);
            }
            lemma_join_lf_no_crlf(rest, trailing);
            lemma_join_front(ls, sep);
            let more = join(rest, sep) + end;
            assert(s =~= x + sep + more);
            assert forall|i: int| 0 <= i < s.len() - 1 implies !(#[trigger] s[i] == '\r' && s[i
                + 1] == '\n') by {
                let xl = x.len() as int;
                if i + 1 < xl {
                    assert(s[i + 1] == ls[0][i + 1]);
                } else if i + 1 == xl {
                    assert(s[i] == x[xl - 1]);
                } else if i == xl {
                    assert(s[i] == '\n');
                } else {
                    assert(s[i] == more[i - xl - 1]);
                    assert(s[i + 1] == more[i - xl]);
                    if more[i - xl - 1] == '\r' && more[i - xl] == '\n' {
                        assert(has_crlf(more));
                    }
                }
            }
        }
    }
}

/// A text without `"\r\n"` that does not end in `'\r'` has no line that
/// ends in `'\r'`.
proof fn lemma_lines_do_not_end_with_cr(s: Seq<char>)
    requires
        !has_crlf(s),
        !ends_with_cr(s),
    ensures
        forall|i: int| 0 <= i < lines(s).len() ==> !ends_with_cr(#[trigger] lines(s)[i]),
    decreases s.len(),
{
    if s.len() > 0 {
        let e = line_end(s);
        lemma_line_end_bound(s);
        if e < s.len() {
            let t = s.skip(e as int + 1);
            let first = s.take(e as int);
            if ends_with_cr(first) {
                assert(s[e - 1] == '\r');
                assert(s[e as int] == '\n');
                assert(has_crlf(s));
            }
            assert(strip_cr(first) == first);
            assert forall|i: int| 0 <= i < t.len() - 1 implies !(#[trigger] t[i] == '\r' && t[i
                + 1] == '\n') by {
                assert(t[i] == s[i + e + 1]);
                assert(t[i + 1] == s[i + e + 2]);
                if s[i + e + 1] == '\r' && s[i + e + 2] == '\n' {
                    assert(has_crlf(s));
                }
            }
            if t.len() > 0 {
                assert(t.last() == s.last());
            }
            lemma_lines_do_not_end_with_cr(t);
            assert(lines(s) == seq![first] + lines(t));
            assert forall|i: int| 0 <= i < lines(s).len() implies !ends_with_cr(
                #[trigger] lines(s)[i],
            ) by {
                if i > 0 {
                    assert(lines(s)[i] == lines(t)[i - 1]);
                }
            }
        }
    }
}

proof fn lemma_layout_keeps(
    c: Seq<Seq<char>>,
    x: Seq<char>,
    rest: Seq<Seq<char>>,
    p: spec_fn(Seq<char>) -> bool,
)
    requires
        p(Seq::<char>::empty()),
        p(x),
        forall|i: int| 0 <= i < c.len() ==> p(#[trigger] c[i]),
        forall|i: int| 0 <= i < rest.len() ==> p(#[trigger] rest[i]),
    ensures
        forall|i: int| 0 <= i < layout(c, x, rest).len() ==> p(#[trigger] layout(c, x, rest)[i]),
{
    let e = Seq::<char>::empty();
    let head = if c.len() > 0 {
        c.push(e)
    } else {
        Seq::<Seq<char>>::empty()
    };
    let tail = if rest.len() > 0 {
        seq![e] + rest
    } else {
        Seq::<Seq<char>>::empty()
    };
    let o = layout(c, x, rest);
    assert forall|i: int| 0 <= i < o.len() implies p(#[trigger] o[i]) by {
        if i < head.len() {
            assert(o[i] == head[i]);
            if i < c.len() {
                assert(head[i] == c[i]);
            }
        } else if i > head.len() {
            assert(o[i] == tail[i - head.len() - 1]);
            if i > head.len() + 1 {
                assert(tail[i - head.len() - 1] == rest[i - head.len() - 2]);
            }
        }
    }
}

proof fn lemma_layout_shape(c: Seq<Seq<char>>, x: Seq<char>, rest: Seq<Seq<char>>)
    ensures
        layout(c, x, rest).len() >= 1,
        layout(c, x, rest).len() == 1 <==> (c.len() == 0 && rest.len() == 0),
        layout(c, x, rest).last() == (if rest.len() > 0 {
            rest.last()
        } else {
            x
        }),
        rest.len() >= 2 ==> layout(c, x, rest).drop_last() == layout(c, x, rest.drop_last()),
{
    let e = Seq::<char>::empty();
    let head = if c.len() > 0 {
        c.push(e)
    } else {
        Seq::<Seq<char>>::empty()
    };
    if rest.len() >= 2 {
        assert((seq![e] + rest).drop_last() =~= seq![e] + rest.drop_last());
        assert((head.push(x) + (seq![e] + rest)).drop_last() =~= head.push(x) + (seq![e]
            + rest.drop_last()));
    }
}

/// A text made by `join` ends with its line ending exactly when one was put
/// after it or its last line is empty.
proof fn lemma_join_ends_with_newline(ls: Seq<Seq<char>>, sep: Seq<char>, trailing: bool)
    requires
        ls.len() > 0,
        sep.len() > 0,
        sep.last() == '\n',
        forall|i: int, j: int| 0 <= i < ls.len() && 0 <= j < ls[i].len() ==> #[trigger] ls[i][j] != '\n',
        ls.last().len() == 0 ==> ls.len() >= 2,
    ensures
        ({
            let s = join(ls, sep) + (if trailing {
                sep
            } else {
                Seq::<char>::empty()
            });
            (s.len() > 0 && s.last() == '\n') <==> (trailing || ls.last().len() == 0)
        }),
{
    let x = ls.last();
    let j = join(ls, sep);
    if !trailing {
        assert(j + Seq::<char>::empty() =~= j);
        if ls.len() == 1 {
            assert(j == x);
            assert(x[x.len() - 1] != '\n');
        } else {
            assert(j == join(ls.drop_last(), sep) + sep + x);
            if x.len() > 0 {
                assert(j.last() == x[x.len() - 1]);
                assert(ls[ls.len() - 1][x.len() - 1] != '\n');
            } else {
                assert(j.last() == sep.last());
            }
        }
    }
}

proof fn lemma_assignment_line_fits(enabled: bool)
    ensures
        forall|j: int|
            0 <= j < assignment_line(enabled).len() ==> #[trigger] assignment_line(enabled)[j]
                != '\n',
        !ends_with_cr(assignment_line(enabled)),
        assignment_line(enabled).len() > 0,
{
    let l = assignment_line(enabled);
    let k = startup_key();
    let m = seq![' ', '=', ' '];
    let b = bool_text(enabled);
    assert forall|j: int| 0 <= j < l.len() implies #[trigger] l[j] != '\n' by {
        if j < k.len() {
            assert(l[j] == k[j]);
        } else if j < k.len() + m.len() {
            assert(l[j] == m[j - k.len()]);
        } else {
            assert(l[j] == b[j - k.len() - m.len()]);
        }
    }
    assert(l.last() == b.last());
}

/// Setting the option twice leaves the file as setting it once to the
/// second value would: nothing of the first rewrite is left over. A file
/// that ends in a bare `'\r'` and holds no `"\r\n"` is left out, since there
/// the first rewrite can make that `'\r'` part of a `"\r\n"`.
pub proof fn law_rewrite_last_setting_wins(raw: Seq<char>, first: bool, second: bool)
    requires
        has_crlf(raw) || !ends_with_cr(raw),
    ensures
        spec_rewrite(spec_rewrite(raw, first), second) == spec_rewrite(raw, second),
{
    let crlf = has_crlf(raw);
    let n = newline_of(raw);
    let t = raw.len() > 0 && raw.last() == '\n';
    let e = Seq::<char>::empty();
    let end = if t {
        n
    } else {
        e
    };
    let ls = lines(raw);
    let fits = |l: Seq<char>|
        (forall|j: int| 0 <= j < l.len() ==> #[trigger] l[j] != '\n') && (crlf || !ends_with_cr(
            l,
        ));
    lemma_lines_hold_no_newline(raw);
    if !crlf {
        lemma_lines_do_not_end_with_cr(raw);
    }
    assert forall|i: int| 0 <= i < ls.len() implies #[trigger] fits(ls[i]) by {
        assert forall|j: int| 0 <= j < ls[i].len() implies #[trigger] ls[i][j] != '\n' by {
            assert(lines(raw)[i][j] != '\n');
        }
    }
    lemma_rewrite_parts(ls, first, fits);
    lemma_rewrite_parts(ls, second, fits);
    let body = drop_leading_blank_lines(without_assignments(ls));
    let k = leading_comment_count(body) as int;
    let c = body.take(k);
    let rest = drop_leading_blank_lines(body.skip(k));
    let a1 = assignment_line(first);
    let a2 = assignment_line(second);
    lemma_assignment_line_is_assignment(first);
    lemma_assignment_line_fits(first);
    lemma_assignment_line_fits(second);
    lemma_empty_line_facts();
    let o1 = layout(c, a1, rest);
    let o2 = layout(c, a2, rest);
    assert(rewritten_lines(raw, first) == o1);
    assert(rewritten_lines(raw, second) == o2);
    assert(fits(a1));
    assert(fits(e));
    lemma_layout_keeps(c, a1, rest, fits);
    lemma_layout_shape(c, a1, rest);
    lemma_layout_shape(c, a2, rest);
    let out1 = join(o1, n) + end;
    assert(spec_rewrite(raw, first) == out1);
    assert forall|i: int, j: int| 0 <= i < o1.len() && 0 <= j < o1[i].len() implies #[trigger] o1[i][j]
        != '\n' by {
        assert(fits(o1[i]));
    }
    assert forall|i: int| n == seq!['\n'] && 0 <= i < o1.len() implies !ends_with_cr(
        #[trigger] o1[i],
    ) by {
        assert(fits(o1[i]));
    }
    lemma_lines_of_join(o1, n, t);
    lemma_join_ends_with_newline(o1, n, t);
    if o1.len() >= 2 || t {
        if crlf {
            lemma_join_holds_crlf(o1, t);
        } else {
            lemma_join_lf_no_crlf(o1, t);
        }
        assert(newline_of(out1) == n);
    }
    let t2 = out1.len() > 0 && out1.last() == '\n';
    if t || o1.last().len() > 0 {
        assert(lines(out1) == o1);
        lemma_rewrite_layout(c, a1, rest, second);
        assert(rewritten_lines(out1, second) == o2);
        assert(t2 == t);
        if o1.len() == 1 && !t {
            assert(o2.len() == 1);
            assert(join(o2, newline_of(out1)) == o2[0]);
            assert(join(o2, n) == o2[0]);
        }
    } else {
        let rest1 = rest.drop_last();
        assert(rest.len() > 0);
        assert(is_blank(rest.last()));
        assert(rest.len() >= 2);
        assert(rest1[0] == rest[0]);
        assert forall|i: int| 0 <= i < rest1.len() implies !is_assignment(#[trigger] rest1[i]) by {
            assert(rest1[i] == rest[i]);
        }
        assert(parts_in_place(c, rest1));
        assert(lines(out1) == layout(c, a1, rest1));
        lemma_rewrite_layout(c, a1, rest1, second);
        assert(rewritten_lines(out1, second) == o2.drop_last());
        assert(t2);
        assert(join(o2, n) == join(o2.drop_last(), n) + n + o2.last());
        assert(join(o2, n) + e =~= join(o2.drop_last(), n) + n);
    }
}

proof fn lemma_leading_comment_count_bound(ls: Seq<Seq<char>>)
    ensures
        leading_comment_count(ls) <= ls.len(),
    decreases ls.len(),
{
    if ls.len() > 0 && is_comment(ls[0]) {
        lemma_leading_comment_count_bound(ls.drop_first());
    }
}

/// A name that `Path::join` adds as one last component on every platform:
/// not empty, not `.` or `..`, and without separators or a drive colon.
pub open spec fn is_plain_file_name(name: Seq<char>) -> bool {
    &&& name.len() > 0
    &&& name != seq!['.']
    &&& name != seq!['.', '.']
    &&& forall|i: int| 0 <= i < name.len() ==> #[trigger] name[i] != '/' && name[i] != '\\'
        && name[i] != ':'
}

/// A verbatim path prefix, `\\?\`.
pub open spec fn starts_verbatim(s: Seq<char>) -> bool {
    s.len() >= 4 && s[0] == '\\' && s[1] == '\\' && s[2] == '?' && s[3] == '\\'
}

/// Joins a directory and a plain file name.
///
/// Trusted: std's `Path::join`, which pushes `name` onto `dir` as
/// `PathBuf::push` documents (`Path::new` and `to_string_lossy` only change
/// the type; text made from `&str` is valid Unicode, so nothing is lost).
/// A relative name without prefix or root is added after a separator unless
/// `dir` is empty or already ends in one (or, on Windows, is a bare drive),
/// so the result ends with the name. The separator is `/` or `\` depending
/// on the platform. On Windows a directory with a verbatim prefix is
/// normalized (`.` and `..` removed), so only there the result need not
/// start with `dir`; the contract says nothing more of that case.
#[verifier::external_body]
fn join_path(dir: &str, name: &str) -> (path: String)
    requires
        is_plain_file_name(name@),
    ensures
        path@.len() >= name@.len(),
        path@.skip(path@.len() - name@.len()) == name@,
        !starts_verbatim(dir@) ==> (path@ == dir@ + name@ || path@ == dir@ + seq!['/'] + name@
            || path@ == dir@ + seq!['\\'] + name@),
{
    std::path::Path::new(dir).join(name).to_string_lossy().into_owned()
}

/// The path of the configuration file, `config.toml` in the executable's
/// directory.
pub fn config_path(exe_dir: &str) -> (path: String)
    ensures
        path@.len() >= 11,
        path@.skip(path@.len() - 11) == "config.toml"@,
        !starts_verbatim(exe_dir@) ==> (path@ == exe_dir@ + "config.toml"@ || path@ == exe_dir@
            + seq!['/'] + "config.toml"@ || path@ == exe_dir@ + seq!['\\'] + "config.toml"@),
{
    let name = "config.toml";
    proof {
        reveal_strlit("config.toml");
        assert(name@.len() == 11);
        assert forall|i: int| 0 <= i < name@.len() implies #[trigger] name@[i] != '/' && name@[i]
            != '\\' && name@[i] != ':' by {}
        assert(name@ != seq!['.']);
        assert(name@ != seq!['.', '.']);
    }
    join_path(exe_dir, name)
}

} // verus!

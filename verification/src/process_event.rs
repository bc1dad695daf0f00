//! Process start and exit events, and the name under which a process is
//! matched against the watch list.
use vstd::prelude::*;

use crate::text::{chars_of, string_from_chars, trim, trim_end, trim_start, trimmed};

verus! {

/// A process that started or exited.
#[derive(Debug, Clone, PartialEq, Eq)]
pub enum ProcessEvent {
    Started { name: String, pid: u32 },
    Exited { pid: u32 },
}

/// The kernel process provider's event for a process start.
pub const PROCESS_START_EVENT_ID: u16 = 1;

/// The kernel process provider's event for a process stop.
pub const PROCESS_STOP_EVENT_ID: u16 = 2;

/// A path separator on Windows.
pub open spec fn is_separator(c: char) -> bool {
    c == '\\' || c == '/'
}

/// The separator that splits components: in a verbatim path (`\\?\…`) only
/// `\`, elsewhere `\` or `/`.
pub open spec fn splits(c: char, verbatim: bool) -> bool {
    c == '\\' || (!verbatim && c == '/')
}

/// The pieces of `s` between separators, empty pieces included; there is one
/// more piece than there are separators.
pub open spec fn segments(s: Seq<char>, verbatim: bool) -> Seq<Seq<char>>
    decreases s.len(),
{
    if s.len() == 0 {
        seq![Seq::<char>::empty()]
    } else {
        let p = segments(s.drop_last(), verbatim);
        if splits(s.last(), verbatim) {
            p.push(Seq::<char>::empty())
        } else {
            p.update(p.len() - 1, p.last().push(s.last()))
        }
    }
}

/// A path always has at least one segment, empty or not.
pub proof fn lemma_segments_nonempty(s: Seq<char>, verbatim: bool)
    ensures
        segments(s, verbatim).len() >= 1,
    decreases s.len(),
{
    if s.len() > 0 {
        lemma_segments_nonempty(s.drop_last(), verbatim);
    }
}

/// Length of the first component of `s`: the index of its first separator,
/// or its length.
pub open spec fn component_end(s: Seq<char>, verbatim: bool) -> nat
    decreases s.len(),
{
    if s.len() == 0 || splits(s[0], verbatim) {
        0
    } else {
        1 + component_end(s.drop_first(), verbatim)
    }
}

/// Where the component that starts at `from` ends.
pub open spec fn end_from(s: Seq<char>, from: int, verbatim: bool) -> int {
    from + component_end(s.skip(from), verbatim)
}

/// A letter that can name a drive.
pub open spec fn is_drive_letter(c: char) -> bool {
    ('a' <= c && c <= 'z') || ('A' <= c && c <= 'Z')
}

/// A drive prefix such as `C:`.
pub open spec fn has_drive_prefix(s: Seq<char>) -> bool {
    s.len() >= 2 && s[1] == ':' && is_drive_letter(s[0])
}

/// A verbatim path: one that opens with `\\?\` written with backslashes.
pub open spec fn is_verbatim(s: Seq<char>) -> bool {
    s.len() >= 4 && s[0] == '\\' && s[1] == '\\' && s[2] == '?' && s[3] == '\\'
}

/// A verbatim UNC path, `\\?\UNC\server\share`.
pub open spec fn is_verbatim_unc(s: Seq<char>) -> bool {
    is_verbatim(s) && s.len() >= 8 && s[4] == 'U' && s[5] == 'N' && s[6] == 'C' && is_separator(
        s[7],
    )
}

/// Length of the Windows prefix of `s` (std's `parse_prefix`), 0 when it
/// has none:
/// - after two separators, `\\?\UNC\server\share` (verbatim; the share and
///   its separator only when the share is not empty), `\\?\C:` followed by
///   `\` or nothing, `\\?\name`, `\\.\name`, or `\\server\share` when both
///   server and share are non-empty (otherwise no prefix);
/// - a drive `C:`.
pub open spec fn prefix_len(s: Seq<char>) -> int {
    if s.len() >= 2 && is_separator(s[0]) && is_separator(s[1]) {
        if is_verbatim(s) {
            if is_verbatim_unc(s) {
                let server_end = end_from(s, 8, true);
                let share_end = if server_end < s.len() {
                    end_from(s, server_end + 1, true)
                } else {
                    server_end
                };
                if share_end > server_end + 1 {
                    share_end
                } else {
                    server_end
                }
            } else if s.len() >= 6 && is_drive_letter(s[4]) && s[5] == ':' && (s.len() == 6
                || s[6] == '\\') {
                6
            } else {
                end_from(s, 4, true)
            }
        } else if s.len() >= 4 && s[2] == '.' && is_separator(s[3]) {
            end_from(s, 4, false)
        } else {
            let server_end = end_from(s, 2, false);
            let share_end = if server_end < s.len() {
                end_from(s, server_end + 1, false)
            } else {
                server_end
            };
            if server_end > 2 && share_end > server_end + 1 {
                share_end
            } else {
                0
            }
        }
    } else if has_drive_prefix(s) {
        2
    } else {
        0
    }
}

/// The pieces of `s` after its prefix, split as its kind of path splits.
pub open spec fn path_pieces(s: Seq<char>) -> Seq<Seq<char>> {
    segments(s.skip(prefix_len(s)), is_verbatim(s))
}

/// A piece that is no component: an empty one, or `.` outside a verbatim
/// path (there `.` is a component of its own).
pub open spec fn is_skipped_piece(p: Seq<char>, verbatim: bool) -> bool {
    p.len() == 0 || (!verbatim && p == seq!['.'])
}

/// The last piece that is a component.
pub open spec fn last_named_piece(pieces: Seq<Seq<char>>, verbatim: bool) -> Option<Seq<char>>
    decreases pieces.len(),
{
    if pieces.len() == 0 {
        None
    } else if is_skipped_piece(pieces.last(), verbatim) {
        last_named_piece(pieces.drop_last(), verbatim)
    } else {
        Some(pieces.last())
    }
}

/// The final component of a Windows path when it is a name (`Path::file_name`):
/// none when it is `.` or `..`, or when the path has no component after its
/// prefix.
pub open spec fn file_name(s: Seq<char>) -> Option<Seq<char>> {
    match last_named_piece(path_pieces(s), is_verbatim(s)) {
        Some(p) => if p == seq!['.', '.'] || p == seq!['.'] {
            None
        } else {
            Some(p)
        },
        None => None,
    }
}

/// ASCII upper-case letters made lower case; every other character kept.
pub open spec fn ascii_lower_char(c: char) -> char {
    if 'A' <= c && c <= 'Z' {
        ((c as u32) + 32) as char
    } else {
        c
    }
}

pub open spec fn ascii_lower(s: Seq<char>) -> Seq<char> {
    s.map_values(|c: char| ascii_lower_char(c))
}

/// The name under which a process is matched: the file name of the path (the
/// whole text when it has none), trimmed and in ASCII lower case.
pub open spec fn normalized_name(name: Seq<char>) -> Seq<char> {
    let base = match file_name(name) {
        Some(f) => f,
        None => name,
    };
    ascii_lower(trim(base))
}

fn lower_char(c: char) -> (d: char)
    ensures
        d == ascii_lower_char(c),
{
    if 'A' <= c && c <= 'Z' {
        let b = c as u8;
        assert(b == c as u32);
        ((b + 32) as u8) as char
    } else {
        c
    }
}

fn separator(c: char) -> (b: bool)
    ensures
        b == is_separator(c),
{
    c == '\\' || c == '/'
}

fn splits_at(c: char, verbatim: bool) -> (b: bool)
    ensures
        b == splits(c, verbatim),
{
    c == '\\' || (!verbatim && c == '/')
}

/// Splits `s` at its separators.
fn split_segments(s: &[char], verbatim: bool) -> (out: Vec<Vec<char>>)
    ensures
        out.deep_view() == segments(s@, verbatim),
{
    let mut out: Vec<Vec<char>> = Vec::new();
    let mut cur: Vec<char> = Vec::new();
    let mut i: usize = 0;
    proof {
        assert(s@.take(0) =~= Seq::<char>::empty());
    }
    while i < s.len()
        invariant
            i <= s@.len(),
            segments(s@.take(i as int), verbatim) == out.deep_view().push(cur@),
        decreases s@.len() - i,
    {
        let c = s[i];
        let ghost prev = out.deep_view();
        let ghost before = cur@;
        proof {
            assert(s@.take(i + 1).drop_last() =~= s@.take(i as int));
            assert(s@.take(i + 1).last() == c);
        }
        if splits_at(c, verbatim) {
            assert(cur.deep_view() =~= cur@);
            out.push(cur);
            cur = Vec::new();
            assert(out.deep_view() =~= prev.push(before));
            assert(segments(s@.take(i + 1), verbatim) =~= out.deep_view().push(cur@));
        } else {
            cur.push(c);
            assert(segments(s@.take(i + 1), verbatim) =~= out.deep_view().push(cur@));
        }
        i = i + 1;
    }
    assert(s@.take(i as int) =~= s@);
    let ghost prev = out.deep_view();
    assert(cur.deep_view() =~= cur@);
    out.push(cur);
    assert(out.deep_view() =~= prev.push(cur@));
    out
}

proof fn lemma_component_end_bound(s: Seq<char>, verbatim: bool)
    ensures
        component_end(s, verbatim) <= s.len(),
    decreases s.len(),
{
    if s.len() > 0 && !splits(s[0], verbatim) {
        lemma_component_end_bound(s.drop_first(), verbatim);
    }
}

/// Where the component that starts at `from` ends (`end_from`).
fn end_from_at(s: &[char], from: usize, verbatim: bool) -> (e: usize)
    requires
        from <= s@.len(),
    ensures
        e == end_from(s@, from as int, verbatim),
        from <= e <= s@.len(),
{
    let mut k = from;
    assert(s@.skip(from as int).len() == s@.len() - from);
    while k < s.len() && !splits_at(s[k], verbatim)
        invariant
            from <= k <= s@.len(),
            component_end(s@.skip(from as int), verbatim) == (k - from) + component_end(
                s@.skip(k as int),
                verbatim,
            ),
        decreases s@.len() - k,
    {
        let ghost t = s@.skip(k as int);
        assert(t[0] == s@[k as int]);
        assert(t.drop_first() =~= s@.skip(k + 1));
        k = k + 1;
    }
    proof {
        let t = s@.skip(k as int);
        if k < s@.len() {
            assert(t[0] == s@[k as int]);
        }
        assert(component_end(t, verbatim) == 0);
    }
    k
}

/// Length of the Windows prefix of `s` (see `prefix_len`).
fn prefix_length(s: &[char]) -> (k: usize)
    ensures
        k == prefix_len(s@),
        k <= s@.len(),
{
    let n = s.len();
    if n >= 2 && separator(s[0]) && separator(s[1]) {
        if n >= 4 && s[0] == '\\' && s[1] == '\\' && s[2] == '?' && s[3] == '\\' {
            if n >= 8 && s[4] == 'U' && s[5] == 'N' && s[6] == 'C' && separator(s[7]) {
                let server_end = end_from_at(s, 8, true);
                if server_end < n {
                    let share_end = end_from_at(s, server_end + 1, true);
                    if share_end > server_end + 1 {
                        share_end
                    } else {
                        server_end
                    }
                } else {
                    server_end
                }
            } else if n >= 6 && (('a' <= s[4] && s[4] <= 'z') || ('A' <= s[4] && s[4] <= 'Z'))
                && s[5] == ':' && (n == 6 || s[6] == '\\') {
                6
            } else {
                end_from_at(s, 4, true)
            }
        } else if n >= 4 && s[2] == '.' && separator(s[3]) {
            end_from_at(s, 4, false)
        } else {
            let server_end = end_from_at(s, 2, false);
            if server_end < n {
                let share_end = end_from_at(s, server_end + 1, false);
                if server_end > 2 && share_end > server_end + 1 {
                    share_end
                } else {
                    0
                }
            } else {
                0
            }
        }
    } else if n >= 2 && s[1] == ':' && (('a' <= s[0] && s[0] <= 'z') || ('A' <= s[0] && s[0]
        <= 'Z')) {
        2
    } else {
        0
    }
}

proof fn lemma_last_named_piece_suffix(pieces: Seq<Seq<char>>, verbatim: bool, k: int)
    requires
        0 <= k <= pieces.len(),
        forall|j: int| k <= j < pieces.len() ==> is_skipped_piece(#[trigger] pieces[j], verbatim),
    ensures
        last_named_piece(pieces, verbatim) == last_named_piece(pieces.take(k), verbatim),
    decreases pieces.len() - k,
{
    if k < pieces.len() {
        let p = pieces.drop_last();
        assert forall|j: int| k <= j < p.len() implies is_skipped_piece(#[trigger] p[j], verbatim) by {
            assert(p[j] == pieces[j]);
        }
        lemma_last_named_piece_suffix(p, verbatim, k);
        assert(p.take(k) =~= pieces.take(k));
    } else {
        assert(pieces.take(k) =~= pieces);
    }
}

fn is_dot(p: &Vec<char>) -> (b: bool)
    ensures
        b == (p@ == seq!['.']),
{
    if p.len() == 1 && p[0] == '.' {
        assert(p@ =~= seq!['.']);
        return true;
    }
    assert(p@ != seq!['.']) by {
        if p@ =~= seq!['.'] {
            assert(p@.len() == 1);
        }
    }
    false
}

fn is_dot_dot(p: &Vec<char>) -> (b: bool)
    ensures
        b == (p@ == seq!['.', '.']),
{
    if p.len() == 2 && p[0] == '.' && p[1] == '.' {
        assert(p@ =~= seq!['.', '.']);
        return true;
    }
    assert(p@ != seq!['.', '.']) by {
        if p@ =~= seq!['.', '.'] {
            assert(p@.len() == 2);
        }
    }
    false
}

fn is_skipped(p: &Vec<char>, verbatim: bool) -> (b: bool)
    ensures
        b == is_skipped_piece(p@, verbatim),
{
    p.len() == 0 || (!verbatim && is_dot(p))
}

/// The file name of a Windows path, or `None` (see `file_name`).
fn path_file_name(s: &[char]) -> (res: Option<Vec<char>>)
    ensures
        match res {
            Some(f) => file_name(s@) == Some(f@),
            None => file_name(s@) is None,
        },
{
    let n = s.len();
    let verbatim = n >= 4 && s[0] == '\\' && s[1] == '\\' && s[2] == '?' && s[3] == '\\';
    let k = prefix_length(s);
    let mut rest: Vec<char> = Vec::new();
    let mut i: usize = k;
    while i < n
        invariant
            k <= i <= n,
            n == s@.len(),
            rest@ == s@.subrange(k as int, i as int),
        decreases n - i,
    {
        rest.push(s[i]);
        i = i + 1;
        assert(rest@ =~= s@.subrange(k as int, i as int));
    }
    assert(rest@ =~= s@.skip(k as int));
    let segs = split_segments(rest.as_slice(), verbatim);
    let ghost pieces = path_pieces(s@);
    assert(pieces == segs.deep_view());
    // Scan back for the last piece that is a component.
    let mut j = segs.len();
    while j > 0 && is_skipped(&segs[j - 1], verbatim)
        invariant
            j <= segs@.len(),
            pieces == segs.deep_view(),
            verbatim == is_verbatim(s@),
            forall|m: int| j <= m < pieces.len() ==> is_skipped_piece(#[trigger] pieces[m], verbatim),
        decreases j,
    {
        assert(pieces[j - 1] == segs.deep_view()[j - 1]);
        assert(segs@[j - 1].deep_view() =~= segs@[j - 1]@);
        j = j - 1;
    }
    proof {
        lemma_last_named_piece_suffix(pieces, verbatim, j as int);
    }
    if j == 0 {
        assert(pieces.take(0).len() == 0);
        return None;
    }
    let ghost kept = pieces.take(j as int);
    assert(segs@[j - 1].deep_view() =~= segs@[j - 1]@);
    assert(kept.last() == segs@[j - 1]@);
    assert(kept.drop_last() =~= pieces.take(j - 1));
    let last = &segs[j - 1];
    if is_dot_dot(last) || is_dot(last) {
        return None;
    }
    let mut copy: Vec<char> = Vec::new();
    let mut i: usize = 0;
    while i < last.len()
        invariant
            i <= last@.len(),
            copy@ == last@.take(i as int),
        decreases last@.len() - i,
    {
        copy.push(last[i]);
        i = i + 1;
        assert(copy@ =~= last@.take(i as int));
    }
    assert(copy@ =~= last@);
    Some(copy)
}

/// The name under which a process is matched: the file name of the path
/// (Windows rules), trimmed and lower-cased in ASCII. A path without a file
/// name is taken whole.
pub fn normalize_process_name(name: &str) -> (res: String)
    ensures
        res@ == normalized_name(name@),
{
    let chars = chars_of(name);
    let base = match path_file_name(chars.as_slice()) {
        Some(f) => f,
        None => chars,
    };
    let t = trimmed(base.as_slice());
    let mut out: Vec<char> = Vec::new();
    let mut i: usize = 0;
    while i < t.len()
        invariant
            i <= t@.len(),
            out@ == ascii_lower(t@.take(i as int)),
        decreases t@.len() - i,
    {
        out.push(lower_char(t[i]));
        i = i + 1;
        assert(out@ =~= ascii_lower(t@.take(i as int)));
    }
    assert(t@.take(i as int) =~= t@);
    string_from_chars(out.as_slice())
}

/// Whether a kernel process event is a start or a stop.
pub fn is_process_lifecycle_event(event_id: u16) -> (b: bool)
    ensures
        b == (event_id == PROCESS_START_EVENT_ID || event_id == PROCESS_STOP_EVENT_ID),
{
    event_id == PROCESS_START_EVENT_ID || event_id == PROCESS_STOP_EVENT_ID
}

/// The event to report for a kernel process record, given its id, its
/// `ProcessID` field and (for a start) its `ImageName` field, each `None`
/// when it could not be read. Records without a process id, records of other
/// kinds, and starts whose name normalizes to nothing are dropped; a start
/// without a readable image name counts as an empty name.
pub fn process_event_from_record(event_id: u16, pid: Option<u32>, image_name: Option<String>) -> (res:
    Option<ProcessEvent>)
    ensures
        !(event_id == PROCESS_START_EVENT_ID || event_id == PROCESS_STOP_EVENT_ID) ==> res is None,
        pid is None ==> res is None,
        (event_id == PROCESS_STOP_EVENT_ID && pid is Some) ==> res == Some(
            ProcessEvent::Exited { pid: pid->0 },
        ),
        (event_id == PROCESS_START_EVENT_ID && pid is Some) ==> {
            let raw = match image_name {
                Some(n) => n@,
                None => Seq::<char>::empty(),
            };
            &&& normalized_name(raw).len() == 0 ==> res is None
            &&& normalized_name(raw).len() != 0 ==> (res matches Some(ProcessEvent::Started {
                name,
                pid: p,
            }) && name@ == normalized_name(raw) && p == pid->0)
        },
{
    if !is_process_lifecycle_event(event_id) {
        return None;
    }
    let pid = match pid {
        Some(p) => p,
        None => return None,
    };
    if event_id == PROCESS_START_EVENT_ID {
        let image = match image_name {
            Some(n) => n,
            None => String::new(),
        };
        let name = normalize_process_name(image.as_str());
        if name.as_str().unicode_len() == 0 {
            return None;
        }
        return Some(ProcessEvent::Started { name, pid });
    }
    Some(ProcessEvent::Exited { pid })
}

proof fn lemma_lower_char(c: char)
    ensures
        is_separator(ascii_lower_char(c)) == is_separator(c),
        crate::text::is_white_space(ascii_lower_char(c)) == crate::text::is_white_space(c),
        (ascii_lower_char(c) == '.') == (c == '.'),
        (ascii_lower_char(c) == ':') == (c == ':'),
        (ascii_lower_char(c) == '\\') == (c == '\\'),
        (ascii_lower_char(c) == '/') == (c == '/'),
        (ascii_lower_char(c) == '?') == (c == '?'),
        is_drive_letter(ascii_lower_char(c)) == is_drive_letter(c),
        ascii_lower_char(ascii_lower_char(c)) == ascii_lower_char(c),
{
    if 'A' <= c && c <= 'Z' {
        let d = ascii_lower_char(c);
        assert(d as u32 == (c as u32) + 32);
        assert('a' <= d && d <= 'z');
    }
}

proof fn lemma_lower_seq(s: Seq<char>)
    ensures
        ascii_lower(s).len() == s.len(),
        forall|i: int| 0 <= i < s.len() ==> #[trigger] ascii_lower(s)[i] == ascii_lower_char(s[i]),
{
}

proof fn lemma_lower_special(p: Seq<char>)
    ensures
        (ascii_lower(p) == seq!['.']) == (p == seq!['.']),
        (ascii_lower(p) == seq!['.', '.']) == (p == seq!['.', '.']),
        ascii_lower(ascii_lower(p)) == ascii_lower(p),
{
    lemma_lower_seq(p);
    lemma_lower_seq(ascii_lower(p));
    if p.len() >= 1 {
        lemma_lower_char(p[0]);
    }
    if p.len() >= 2 {
        lemma_lower_char(p[1]);
    }
    if p == seq!['.'] {
        assert(ascii_lower(p) =~= seq!['.']);
    }
    if ascii_lower(p) == seq!['.'] {
        assert(p =~= seq!['.']);
    }
    if p == seq!['.', '.'] {
        assert(ascii_lower(p) =~= seq!['.', '.']);
    }
    if ascii_lower(p) == seq!['.', '.'] {
        assert(p =~= seq!['.', '.']);
    }
    assert forall|i: int| 0 <= i < p.len() implies #[trigger] ascii_lower(ascii_lower(p))[i]
        == ascii_lower(p)[i] by {
        lemma_lower_char(p[i]);
    }
    assert(ascii_lower(ascii_lower(p)) =~= ascii_lower(p));
}

pub open spec fn lower_pieces(ps: Seq<Seq<char>>) -> Seq<Seq<char>> {
    ps.map_values(|p: Seq<char>| ascii_lower(p))
}

proof fn lemma_segments_lower(s: Seq<char>, verbatim: bool)
    ensures
        segments(ascii_lower(s), verbatim) == lower_pieces(segments(s, verbatim)),
    decreases s.len(),
{
    lemma_lower_seq(s);
    if s.len() == 0 {
        assert(ascii_lower(s) =~= s);
        assert(ascii_lower(Seq::<char>::empty()) =~= Seq::<char>::empty());
        assert(lower_pieces(seq![Seq::<char>::empty()]) =~= seq![Seq::<char>::empty()]);
    } else {
        let l = ascii_lower(s);
        assert(l.drop_last() =~= ascii_lower(s.drop_last()));
        lemma_segments_lower(s.drop_last(), verbatim);
        lemma_segments_nonempty(s.drop_last(), verbatim);
        let c = s.last();
        lemma_lower_char(c);
        assert(l.last() == ascii_lower_char(c));
        let p = segments(s.drop_last(), verbatim);
        if splits(c, verbatim) {
            assert(ascii_lower(Seq::<char>::empty()) =~= Seq::<char>::empty());
            assert(lower_pieces(p.push(Seq::<char>::empty())) =~= lower_pieces(p).push(
                Seq::<char>::empty(),
            ));
        } else {
            let n = p.len() - 1;
            assert(ascii_lower(p.last().push(c)) =~= ascii_lower(p.last()).push(ascii_lower_char(c)));
            assert(lower_pieces(p).last() == ascii_lower(p.last()));
            assert(lower_pieces(p.update(n, p.last().push(c))) =~= lower_pieces(p).update(
                n,
                lower_pieces(p).last().push(ascii_lower_char(c)),
            ));
        }
    }
}

/// Two texts that agree once lower-cased have their separators, dots,
/// colons, question marks and drive letters in the same places.
pub open spec fn same_path_syntax(a: Seq<char>, b: Seq<char>) -> bool {
    &&& a.len() == b.len()
    &&& forall|i: int|
        0 <= i < a.len() ==> {
            &&& (#[trigger] a[i] == '\\') == (b[i] == '\\')
            &&& (a[i] == '/') == (b[i] == '/')
            &&& (a[i] == '.') == (b[i] == '.')
            &&& (a[i] == ':') == (b[i] == ':')
            &&& (a[i] == '?') == (b[i] == '?')
            &&& is_drive_letter(a[i]) == is_drive_letter(b[i])
        }
}

proof fn lemma_same_path_syntax(a: Seq<char>, b: Seq<char>)
    requires
        ascii_lower(a) == ascii_lower(b),
    ensures
        same_path_syntax(a, b),
{
    lemma_lower_seq(a);
    lemma_lower_seq(b);
    assert forall|i: int| 0 <= i < a.len() implies {
        &&& (#[trigger] a[i] == '\\') == (b[i] == '\\')
        &&& (a[i] == '/') == (b[i] == '/')
        &&& (a[i] == '.') == (b[i] == '.')
        &&& (a[i] == ':') == (b[i] == ':')
        &&& (a[i] == '?') == (b[i] == '?')
        &&& is_drive_letter(a[i]) == is_drive_letter(b[i])
    } by {
        let ca = a[i];
        let cb = b[i];
        lemma_lower_char(ca);
        lemma_lower_char(cb);
        assert(a.len() == b.len());
        assert(ascii_lower(a)[i] == ascii_lower_char(ca));
        assert(ascii_lower(b)[i] == ascii_lower_char(cb));
        assert(ascii_lower(a)[i] == ascii_lower(b)[i]);
    }
}

proof fn lemma_component_end_same(a: Seq<char>, b: Seq<char>, verbatim: bool)
    requires
        same_path_syntax(a, b),
    ensures
        component_end(a, verbatim) == component_end(b, verbatim),
    decreases a.len(),
{
    if a.len() > 0 {
        assert(a[0] == '\\' <==> b[0] == '\\');
        assert(a[0] == '/' <==> b[0] == '/');
        let a1 = a.drop_first();
        let b1 = b.drop_first();
        assert forall|i: int| 0 <= i < a1.len() implies {
            &&& (#[trigger] a1[i] == '\\') == (b1[i] == '\\')
            &&& (a1[i] == '/') == (b1[i] == '/')
            &&& (a1[i] == '.') == (b1[i] == '.')
            &&& (a1[i] == ':') == (b1[i] == ':')
            &&& (a1[i] == '?') == (b1[i] == '?')
            &&& is_drive_letter(a1[i]) == is_drive_letter(b1[i])
        } by {
            assert(a1[i] == a[i + 1] && b1[i] == b[i + 1]);
        }
        lemma_component_end_same(a1, b1, verbatim);
    }
}

proof fn lemma_end_from_same(a: Seq<char>, b: Seq<char>, from: int, verbatim: bool)
    requires
        same_path_syntax(a, b),
        0 <= from <= a.len(),
    ensures
        end_from(a, from, verbatim) == end_from(b, from, verbatim),
{
    let a1 = a.skip(from);
    let b1 = b.skip(from);
    assert forall|i: int| 0 <= i < a1.len() implies {
        &&& (#[trigger] a1[i] == '\\') == (b1[i] == '\\')
        &&& (a1[i] == '/') == (b1[i] == '/')
        &&& (a1[i] == '.') == (b1[i] == '.')
        &&& (a1[i] == ':') == (b1[i] == ':')
        &&& (a1[i] == '?') == (b1[i] == '?')
        &&& is_drive_letter(a1[i]) == is_drive_letter(b1[i])
    } by {
        assert(a1[i] == a[i + from] && b1[i] == b[i + from]);
    }
    lemma_component_end_same(a1, b1, verbatim);
}

proof fn lemma_end_from_bound(s: Seq<char>, from: int, verbatim: bool)
    requires
        0 <= from <= s.len(),
    ensures
        from <= end_from(s, from, verbatim) <= s.len(),
{
    lemma_component_end_bound(s.skip(from), verbatim);
}

/// The prefix depends only on where the path syntax stands, and on whether
/// the path is a verbatim UNC path.
proof fn lemma_prefix_same(a: Seq<char>, b: Seq<char>)
    requires
        same_path_syntax(a, b),
        is_verbatim_unc(a) == is_verbatim_unc(b),
    ensures
        prefix_len(a) == prefix_len(b),
        is_verbatim(a) == is_verbatim(b),
        0 <= prefix_len(a) <= a.len(),
{
    let n = a.len() as int;
    if n >= 2 {
        assert(a[0] == '\\' <==> b[0] == '\\');
        assert(a[0] == '/' <==> b[0] == '/');
        assert(a[1] == '\\' <==> b[1] == '\\');
        assert(a[1] == '/' <==> b[1] == '/');
        assert(a[1] == ':' <==> b[1] == ':');
        assert(is_drive_letter(a[0]) == is_drive_letter(b[0]));
    }
    if n >= 4 {
        assert(a[2] == '?' <==> b[2] == '?');
        assert(a[2] == '.' <==> b[2] == '.');
        assert(a[3] == '\\' <==> b[3] == '\\');
        assert(a[3] == '/' <==> b[3] == '/');
    }
    if n >= 6 {
        assert(is_drive_letter(a[4]) == is_drive_letter(b[4]));
        assert(a[5] == ':' <==> b[5] == ':');
    }
    if n >= 7 {
        assert(a[6] == '\\' <==> b[6] == '\\');
    }
    if n >= 8 {
        lemma_end_from_same(a, b, 8, true);
        lemma_end_from_bound(a, 8, true);
        let e = end_from(a, 8, true);
        if e < n {
            lemma_end_from_same(a, b, e + 1, true);
            lemma_end_from_bound(a, e + 1, true);
        }
    }
    if n >= 4 {
        lemma_end_from_same(a, b, 4, true);
        lemma_end_from_same(a, b, 4, false);
        lemma_end_from_bound(a, 4, true);
        lemma_end_from_bound(a, 4, false);
    }
    if n >= 2 {
        lemma_end_from_same(a, b, 2, false);
        lemma_end_from_bound(a, 2, false);
        let e = end_from(a, 2, false);
        if e < n {
            lemma_end_from_same(a, b, e + 1, false);
            lemma_end_from_bound(a, e + 1, false);
        }
    }
}

proof fn lemma_last_named_piece_lower(ps: Seq<Seq<char>>, verbatim: bool)
    ensures
        last_named_piece(lower_pieces(ps), verbatim) == match last_named_piece(ps, verbatim) {
            Some(p) => Some(ascii_lower(p)),
            None => None,
        },
    decreases ps.len(),
{
    if ps.len() > 0 {
        let l = lower_pieces(ps);
        assert(l.drop_last() =~= lower_pieces(ps.drop_last()));
        lemma_last_named_piece_lower(ps.drop_last(), verbatim);
        assert(l.last() == ascii_lower(ps.last()));
        lemma_lower_seq(ps.last());
        lemma_lower_special(ps.last());
    }
}

/// Names that agree once lower-cased, and are both verbatim UNC paths or
/// both not, have file names that agree once lower-cased.
proof fn lemma_file_name_case(a: Seq<char>, b: Seq<char>)
    requires
        ascii_lower(a) == ascii_lower(b),
        is_verbatim_unc(a) == is_verbatim_unc(b),
    ensures
        (file_name(a) is None) == (file_name(b) is None),
        file_name(a) is Some ==> ascii_lower(file_name(a).unwrap()) == ascii_lower(
            file_name(b).unwrap(),
        ),
{
    lemma_same_path_syntax(a, b);
    lemma_prefix_same(a, b);
    let k = prefix_len(a);
    let v = is_verbatim(a);
    assert(ascii_lower(a.skip(k)) =~= ascii_lower(a).skip(k));
    assert(ascii_lower(b.skip(k)) =~= ascii_lower(b).skip(k));
    lemma_segments_lower(a.skip(k), v);
    lemma_segments_lower(b.skip(k), v);
    lemma_last_named_piece_lower(path_pieces(a), v);
    lemma_last_named_piece_lower(path_pieces(b), v);
    if let Some(p) = last_named_piece(path_pieces(a), v) {
        let q = last_named_piece(path_pieces(b), v).unwrap();
        lemma_lower_special(p);
        lemma_lower_special(q);
    }
}

proof fn lemma_trim_start_lower(s: Seq<char>)
    ensures
        trim_start(ascii_lower(s)) == ascii_lower(trim_start(s)),
    decreases s.len(),
{
    lemma_lower_seq(s);
    if s.len() > 0 {
        lemma_lower_char(s[0]);
        assert(ascii_lower(s).drop_first() =~= ascii_lower(s.drop_first()));
        lemma_trim_start_lower(s.drop_first());
    }
}

proof fn lemma_trim_end_lower(s: Seq<char>)
    ensures
        trim_end(ascii_lower(s)) == ascii_lower(trim_end(s)),
    decreases s.len(),
{
    lemma_lower_seq(s);
    if s.len() > 0 {
        lemma_lower_char(s.last());
        assert(ascii_lower(s).drop_last() =~= ascii_lower(s.drop_last()));
        assert(ascii_lower(s).last() == ascii_lower_char(s.last()));
        lemma_trim_end_lower(s.drop_last());
    }
}

proof fn lemma_trim_lower(s: Seq<char>)
    ensures
        trim(ascii_lower(s)) == ascii_lower(trim(s)),
{
    lemma_trim_start_lower(s);
    lemma_trim_end_lower(trim_start(s));
}

/// Process names match whatever their ASCII case: two names that agree once
/// lower-cased have the same normalized form. The one exception is the
/// verbatim UNC prefix, whose `UNC` std only reads in upper case: names
/// that differ there are left out.
pub proof fn law_matching_ignores_ascii_case(a: Seq<char>, b: Seq<char>)
    requires
        ascii_lower(a) == ascii_lower(b),
        is_verbatim_unc(a) == is_verbatim_unc(b),
    ensures
        normalized_name(a) == normalized_name(b),
{
    lemma_file_name_case(a, b);
    let base_a = match file_name(a) {
        Some(f) => f,
        None => a,
    };
    let base_b = match file_name(b) {
        Some(f) => f,
        None => b,
    };
    assert(ascii_lower(base_a) == ascii_lower(base_b));
    lemma_trim_lower(base_a);
    lemma_trim_lower(base_b);
}

proof fn lemma_trim_end_prefix(s: Seq<char>)
    ensures
        trim_end(s).len() <= s.len(),
        forall|i: int| 0 <= i < trim_end(s).len() ==> #[trigger] trim_end(s)[i] == s[i],
        trim_end(s).len() > 0 ==> !crate::text::is_white_space(trim_end(s).last()),
    decreases s.len(),
{
    if s.len() > 0 && crate::text::is_white_space(s.last()) {
        lemma_trim_end_prefix(s.drop_last());
        assert forall|i: int| 0 <= i < trim_end(s).len() implies #[trigger] trim_end(s)[i]
            == s[i] by {
            assert(trim_end(s.drop_last())[i] == s.drop_last()[i]);
        }
    }
}

proof fn lemma_trim_idempotent(s: Seq<char>)
    ensures
        trim(trim(s)) == trim(s),
{
    let y = trim_start(s);
    crate::text::lemma_trim_start_first(s);
    let z = trim_end(y);
    lemma_trim_end_prefix(y);
    if z.len() > 0 {
        assert(z[0] == y[0]);
        assert(trim_start(z) == z);
        assert(trim_end(z) == z);
    } else {
        assert(trim_start(z) == z);
        assert(trim_end(z) == z);
    }
}

/// No separator: the text is a single piece.
pub open spec fn has_no_separator(s: Seq<char>) -> bool {
    forall|i: int| 0 <= i < s.len() ==> #[trigger] s[i] != '\\' && s[i] != '/'
}

/// A drive prefix with a name after it, such as `c:d`: read as a path, only
/// the part after the drive is its file name.
pub open spec fn drive_then_name(s: Seq<char>) -> bool {
    &&& has_drive_prefix(s)
    &&& s.len() > 2
    &&& s.skip(2) != seq!['.']
    &&& s.skip(2) != seq!['.', '.']
}

proof fn lemma_segments_plain(s: Seq<char>)
    requires
        has_no_separator(s),
    ensures
        segments(s, false) == seq![s],
    decreases s.len(),
{
    if s.len() == 0 {
        assert(s =~= Seq::<char>::empty());
    } else {
        let p = s.drop_last();
        assert forall|i: int| 0 <= i < p.len() implies #[trigger] p[i] != '\\' && p[i] != '/' by {
            assert(p[i] == s[i]);
        }
        lemma_segments_plain(p);
        assert(s[s.len() - 1] != '\\' && s[s.len() - 1] != '/');
        assert(p.push(s.last()) =~= s);
        assert(seq![p].update(0, p.push(s.last())) =~= seq![s]);
    }
}

/// Every piece of `s` is at most as long as `s`, and only `s` itself is as
/// long.
proof fn lemma_segment_lengths(s: Seq<char>, verbatim: bool)
    ensures
        forall|i: int|
            0 <= i < segments(s, verbatim).len() ==> (#[trigger] segments(s, verbatim)[i]).len()
                <= s.len() && (segments(s, verbatim)[i].len() == s.len() ==> segments(
                s,
                verbatim,
            )[i] == s),
    decreases s.len(),
{
    if s.len() == 0 {
        assert(s =~= Seq::<char>::empty());
    } else {
        let d = s.drop_last();
        lemma_segment_lengths(d, verbatim);
        lemma_segments_nonempty(d, verbatim);
        let p = segments(d, verbatim);
        let q = segments(s, verbatim);
        assert forall|i: int| 0 <= i < q.len() implies (#[trigger] q[i]).len() <= s.len() && (
        q[i].len() == s.len() ==> q[i] == s) by {
            if splits(s.last(), verbatim) {
                if i < p.len() {
                    assert(q[i] == p[i]);
                }
            } else {
                if i < p.len() - 1 {
                    assert(q[i] == p[i]);
                } else {
                    assert(q[i] == p.last().push(s.last()));
                    if q[i].len() == s.len() {
                        assert(p.last() == d);
                        assert(d.push(s.last()) =~= s);
                    }
                }
            }
        }
    }
}

proof fn lemma_last_named_piece_member(ps: Seq<Seq<char>>, verbatim: bool)
    ensures
        last_named_piece(ps, verbatim) is Some ==> exists|i: int|
            0 <= i < ps.len() && ps[i] == last_named_piece(ps, verbatim).unwrap(),
    decreases ps.len(),
{
    if ps.len() > 0 {
        lemma_last_named_piece_member(ps.drop_last(), verbatim);
        if is_skipped_piece(ps.last(), verbatim) {
            if last_named_piece(ps, verbatim) is Some {
                let i = choose|i: int|
                    0 <= i < ps.drop_last().len() && ps.drop_last()[i] == last_named_piece(
                        ps.drop_last(),
                        verbatim,
                    ).unwrap();
                assert(ps[i] == ps.drop_last()[i]);
            }
        } else {
            assert(ps[ps.len() - 1] == ps.last());
        }
    }
}

proof fn lemma_trim_start_shorter(s: Seq<char>)
    ensures
        trim_start(s).len() <= s.len(),
    decreases s.len(),
{
    if s.len() > 0 && crate::text::is_white_space(s[0]) {
        lemma_trim_start_shorter(s.drop_first());
    }
}

/// A normalized name is in ASCII lower case and trimmed. Normalizing it
/// again gives it back exactly when, read as a path, it has no file name
/// other than itself; for a name without separators, exactly when it is not
/// a drive followed by a name (`c:d` gives `d`).
pub proof fn law_normalized_name_is_canonical(name: Seq<char>)
    ensures
        ascii_lower(normalized_name(name)) == normalized_name(name),
        trim(normalized_name(name)) == normalized_name(name),
        normalized_name(normalized_name(name)) == normalized_name(name) <==> (file_name(
            normalized_name(name),
        ) is None || file_name(normalized_name(name)) == Some(normalized_name(name))),
        has_no_separator(normalized_name(name)) ==> (normalized_name(normalized_name(name))
            == normalized_name(name) <==> !drive_then_name(normalized_name(name))),
{
    let base = match file_name(name) {
        Some(f) => f,
        None => name,
    };
    let r = normalized_name(name);
    lemma_lower_special(trim(base));
    lemma_trim_lower(trim(base));
    lemma_trim_idempotent(base);
    // Idempotent exactly when `r` is its own base.
    match file_name(r) {
        Some(f) => {
            if f != r {
                let k = prefix_len(r);
                let v = is_verbatim(r);
                let t = r.skip(k);
                lemma_same_path_syntax(r, r);
                lemma_prefix_same(r, r);
                lemma_last_named_piece_member(path_pieces(r), v);
                let p = last_named_piece(path_pieces(r), v).unwrap();
                assert(p == f);
                let i = choose|i: int| 0 <= i < path_pieces(r).len() && path_pieces(r)[i] == p;
                lemma_segment_lengths(t, v);
                assert(segments(t, v)[i] == f);
                lemma_trim_start_shorter(f);
                lemma_trim_end_prefix(trim_start(f));
                lemma_lower_seq(trim(f));
                if normalized_name(r) == r {
                    assert(f.len() == t.len());
                    assert(t =~= r);
                }
            }
        },
        None => {},
    }
    if has_no_separator(r) {
        assert(!is_verbatim(r));
        let k = prefix_len(r);
        assert(k == 0 || k == 2) by {
            if r.len() >= 2 {
                assert(r[0] != '\\' && r[0] != '/');
            }
        }
        let t = r.skip(k);
        assert forall|i: int| 0 <= i < t.len() implies #[trigger] t[i] != '\\' && t[i] != '/' by {
            assert(t[i] == r[i + k]);
        }
        lemma_segments_plain(t);
        assert(path_pieces(r) == seq![t]);
        assert(seq![t].drop_last() =~= Seq::<Seq<char>>::empty());
        assert(seq![t].last() == t);
        assert(last_named_piece(Seq::<Seq<char>>::empty(), false) is None);
        if is_skipped_piece(t, false) {
            assert(last_named_piece(seq![t], false) is None);
        } else {
            assert(last_named_piece(seq![t], false) == Some(t));
        }
        if k == 0 {
            assert(t =~= r);
            assert(!drive_then_name(r));
        } else {
            assert(has_drive_prefix(r));
            if drive_then_name(r) {
                assert(t.len() < r.len());
                assert(file_name(r) == Some(t));
            }
        }
    }
}

} // verus!

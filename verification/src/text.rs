use vstd::prelude::*;
use vstd::std_specs::iter::IteratorSpec;

verus! {

broadcast use vstd::string::group_string_axioms;

/// The characters of a string slice, in order.
pub fn chars_of(s: &str) -> (v: Vec<char>)
    ensures
        v@ == s@,
{
    let mut v: Vec<char> = Vec::new();
    for c in it: s.chars()
        invariant
            v@ == it.seq().take(it.index() as int),
    {
        v.push(c);
    }
    v
}

/// Builds a `String` from its characters.
///
/// Trusted: collects the characters through std's `FromIterator<&char>` for
/// `String`, which appends each character in order, so the string's characters
/// are exactly `chars`.
#[verifier::external_body]
pub fn string_from_chars(chars: &[char]) -> (s: String)
    ensures
        s@ == chars@,
{
    chars.iter().collect()
}

/// Unicode `White_Space`, the property that `char::is_whitespace` and the
/// trimming methods of `str` go by.
pub open spec fn is_white_space(c: char) -> bool {
    let u = c as u32;
    ||| 0x09 <= u <= 0x0d
    ||| u == 0x20
    ||| u == 0x85
    ||| u == 0xa0
    ||| u == 0x1680
    ||| 0x2000 <= u <= 0x200a
    ||| u == 0x2028
    ||| u == 0x2029
    ||| u == 0x202f
    ||| u == 0x205f
    ||| u == 0x3000
}

pub fn white_space(c: char) -> (b: bool)
    ensures
        b == is_white_space(c),
{
    let u = c as u32;
    (0x09 <= u && u <= 0x0d) || u == 0x20 || u == 0x85 || u == 0xa0 || u == 0x1680 || (0x2000
        <= u && u <= 0x200a) || u == 0x2028 || u == 0x2029 || u == 0x202f || u == 0x205f || u
        == 0x3000
}

/// `s` with its leading white space removed (`str::trim_start`).
pub open spec fn trim_start(s: Seq<char>) -> Seq<char>
    decreases s.len(),
{
    if s.len() > 0 && is_white_space(s[0]) {
        trim_start(s.drop_first())
    } else {
        s
    }
}

/// `s` with its trailing white space removed (`str::trim_end`).
pub open spec fn trim_end(s: Seq<char>) -> Seq<char>
    decreases s.len(),
{
    if s.len() > 0 && is_white_space(s.last()) {
        trim_end(s.drop_last())
    } else {
        s
    }
}

/// `s` with white space removed at both ends (`str::trim`).
pub open spec fn trim(s: Seq<char>) -> Seq<char> {
    trim_end(trim_start(s))
}

/// A line that holds nothing but white space.
pub open spec fn is_blank(s: Seq<char>) -> bool {
    trim(s).len() == 0
}

/// `trim_start` drops exactly the white space before index `k`, when
/// `s[k]` is the first character that is not white space.
pub proof fn lemma_trim_start_at(s: Seq<char>, k: int)
    requires
        0 <= k <= s.len(),
        forall|i: int| 0 <= i < k ==> is_white_space(#[trigger] s[i]),
        k < s.len() ==> !is_white_space(s[k]),
    ensures
        trim_start(s) == s.skip(k),
    decreases k,
{
    if k == 0 {
        assert(s.skip(0) =~= s);
    } else {
        let t = s.drop_first();
        assert forall|i: int| 0 <= i < k - 1 implies is_white_space(#[trigger] t[i]) by {
            assert(t[i] == s[i + 1]);
        }
        lemma_trim_start_at(t, k - 1);
        assert(t.skip(k - 1) =~= s.skip(k));
    }
}

/// `trim_end` keeps exactly the characters before index `k`, when `s[k - 1]`
/// is the last character that is not white space.
pub proof fn lemma_trim_end_at(s: Seq<char>, k: int)
    requires
        0 <= k <= s.len(),
        forall|i: int| k <= i < s.len() ==> is_white_space(#[trigger] s[i]),
        k > 0 ==> !is_white_space(s[k - 1]),
    ensures
        trim_end(s) == s.take(k),
    decreases s.len() - k,
{
    if k == s.len() {
        assert(s.take(k) =~= s);
    } else {
        let t = s.drop_last();
        assert forall|i: int| k <= i < t.len() implies is_white_space(#[trigger] t[i]) by {
            assert(t[i] == s[i]);
        }
        lemma_trim_end_at(t, k);
        assert(t.take(k) =~= s.take(k));
    }
}

/// A string is blank exactly when every character is white space.
pub proof fn lemma_blank_iff_all_white_space(s: Seq<char>)
    ensures
        is_blank(s) <==> forall|i: int| 0 <= i < s.len() ==> is_white_space(#[trigger] s[i]),
    decreases s.len(),
{
    if s.len() == 0 {
    } else if is_white_space(s[0]) {
        lemma_blank_iff_all_white_space(s.drop_first());
        if forall|i: int| 0 <= i < s.drop_first().len() ==> is_white_space(
            #[trigger] s.drop_first()[i],
        ) {
            assert forall|i: int| 0 <= i < s.len() implies is_white_space(#[trigger] s[i]) by {
                if i > 0 {
                    assert(s[i] == s.drop_first()[i - 1]);
                }
            }
        } else {
            let j = choose|j: int|
                0 <= j < s.drop_first().len() && !is_white_space(#[trigger] s.drop_first()[j]);
            assert(s[j + 1] == s.drop_first()[j]);
        }
    } else {
        assert(trim_start(s) == s);
        let t = trim_start(s);
        if trim_end(t).len() == 0 {
            lemma_trim_end_nonempty(t);
        }
    }
}

/// What `trim_start` leaves opens with a character that is not white space.
pub proof fn lemma_trim_start_first(s: Seq<char>)
    ensures
        trim_start(s).len() > 0 ==> !is_white_space(trim_start(s)[0]),
    decreases s.len(),
{
    if s.len() > 0 && is_white_space(s[0]) {
        lemma_trim_start_first(s.drop_first());
    }
}

/// Trimming the end of a string that starts with a non-white-space
/// character leaves that character.
pub proof fn lemma_trim_end_nonempty(s: Seq<char>)
    requires
        s.len() > 0,
        !is_white_space(s[0]),
    ensures
        trim_end(s).len() > 0,
    decreases s.len(),
{
    if s.len() > 1 && is_white_space(s.last()) {
        lemma_trim_end_nonempty(s.drop_last());
    }
}

/// Index of the first character of `s` that is not white space at or after
/// `from`, or `s.len()`.
pub fn skip_white_space(s: &[char], from: usize) -> (k: usize)
    requires
        from <= s@.len(),
    ensures
        from <= k <= s@.len(),
        forall|i: int| from <= i < k ==> is_white_space(#[trigger] s@[i]),
        k < s@.len() ==> !is_white_space(s@[k as int]),
{
    let mut k = from;
    while k < s.len() && white_space(s[k])
        invariant
            from <= k <= s@.len(),
            forall|i: int| from <= i < k ==> is_white_space(#[trigger] s@[i]),
        decreases s@.len() - k,
    {
        k = k + 1;
    }
    k
}

/// Whether `s` is blank: `s.trim().is_empty()`.
pub fn blank(s: &[char]) -> (b: bool)
    ensures
        b == is_blank(s@),
{
    proof {
        lemma_blank_iff_all_white_space(s@);
    }
    skip_white_space(s, 0) == s.len()
}

/// The characters of `trim(s)`.
pub fn trimmed(s: &[char]) -> (t: Vec<char>)
    ensures
        t@ == trim(s@),
{
    let start = skip_white_space(s, 0);
    proof {
        lemma_trim_start_at(s@, start as int);
    }
    let mut end = s.len();
    while end > start && white_space(s[end - 1])
        invariant
            start <= end <= s@.len(),
            forall|i: int| end <= i < s@.len() ==> is_white_space(#[trigger] s@[i]),
        decreases end,
    {
        end = end - 1;
    }
    let ghost u = s@.skip(start as int);
    proof {
        assert forall|i: int| end - start <= i < u.len() implies is_white_space(#[trigger] u[i]) by {
            assert(u[i] == s@[i + start]);
        }
        if end > start {
            assert(u[end - start - 1] == s@[end - 1]);
        }
        lemma_trim_end_at(u, end - start);
    }
    let mut t: Vec<char> = Vec::new();
    let mut i = start;
    while i < end
        invariant
            start <= i <= end <= s@.len(),
            t@ == s@.subrange(start as int, i as int),
        decreases end - i,
    {
        t.push(s[i]);
        i = i + 1;
        assert(t@ =~= s@.subrange(start as int, i as int));
    }
    assert(u.take(end - start) =~= s@.subrange(start as int, end as int));
    t
}

/// Length of the first line of `s`: the index of its first `'\n'`, or
/// `s.len()` when it has none.
pub open spec fn line_end(s: Seq<char>) -> nat
    decreases s.len(),
{
    if s.len() == 0 || s[0] == '\n' {
        0
    } else {
        1 + line_end(s.drop_first())
    }
}

/// A line with one trailing `'\r'` removed, as `str::lines` does for a line
/// that ended in `"\r\n"`.
pub open spec fn strip_cr(l: Seq<char>) -> Seq<char> {
    if l.len() > 0 && l.last() == '\r' {
        l.drop_last()
    } else {
        l
    }
}

/// The first line ends at the first `'\n'`, or at the end of the text.
pub proof fn lemma_line_end_bound(s: Seq<char>)
    ensures
        line_end(s) <= s.len(),
        line_end(s) < s.len() ==> s[line_end(s) as int] == '\n',
        forall|i: int| 0 <= i < line_end(s) ==> #[trigger] s[i] != '\n',
    decreases s.len(),
{
    if s.len() > 0 && s[0] != '\n' {
        lemma_line_end_bound(s.drop_first());
        assert forall|i: int| 0 <= i < line_end(s) implies #[trigger] s[i] != '\n' by {
            if i > 0 {
                assert(s[i] == s.drop_first()[i - 1]);
            }
        }
    }
}

/// The lines of `s`, as `str::lines` yields them: split at each `'\n'`, a
/// `'\r'` before that `'\n'` dropped, and no empty line after a final `'\n'`.
pub open spec fn lines(s: Seq<char>) -> Seq<Seq<char>>
    decreases s.len(),
{
    if s.len() == 0 {
        seq![]
    } else {
        let e = line_end(s);
        if e >= s.len() {
            seq![s]
        } else {
            proof {
                lemma_line_end_bound(s);
            }
            seq![strip_cr(s.take(e as int))] + lines(s.skip(e as int + 1))
        }
    }
}

/// A string without `'\n'` is a single line (or none, when empty).
pub proof fn lemma_lines_no_newline(s: Seq<char>)
    requires
        forall|i: int| 0 <= i < s.len() ==> #[trigger] s[i] != '\n',
    ensures
        lines(s) == (if s.len() == 0 {
            Seq::<Seq<char>>::empty()
        } else {
            seq![s]
        }),
{
    lemma_line_end_exact(s, seq![]);
    assert(s + Seq::<char>::empty() =~= s);
}

/// The first line of `head + t`, where `head` holds no `'\n'` and `t` is
/// empty or starts with one, ends where `head` ends.
pub proof fn lemma_line_end_exact(head: Seq<char>, t: Seq<char>)
    requires
        forall|i: int| 0 <= i < head.len() ==> #[trigger] head[i] != '\n',
        t.len() > 0 ==> t[0] == '\n',
    ensures
        line_end(head + t) == head.len(),
    decreases head.len(),
{
    if head.len() > 0 {
        let h2 = head.drop_first();
        assert forall|i: int| 0 <= i < h2.len() implies #[trigger] h2[i] != '\n' by {
            assert(h2[i] == head[i + 1]);
        }
        lemma_line_end_exact(h2, t);
        assert((head + t).drop_first() =~= h2 + t);
        assert((head + t)[0] == head[0]);
    }
}

/// Splitting after a line that holds no `'\n'`.
pub proof fn lemma_lines_after_newline(head: Seq<char>, t: Seq<char>)
    requires
        forall|i: int| 0 <= i < head.len() ==> #[trigger] head[i] != '\n',
    ensures
        lines(head + seq!['\n'] + t) == seq![strip_cr(head)] + lines(t),
{
    let s = head + seq!['\n'] + t;
    assert(s =~= head + (seq!['\n'] + t));
    lemma_line_end_exact(head, seq!['\n'] + t);
    assert(s.take(head.len() as int) =~= head);
    assert(s.skip(head.len() as int + 1) =~= t);
}

/// The lines of `s`, each as its characters.
pub fn split_lines(s: &[char]) -> (out: Vec<Vec<char>>)
    ensures
        out.deep_view() == lines(s@),
{
    let mut out: Vec<Vec<char>> = Vec::new();
    let mut cur: Vec<char> = Vec::new();
    let mut i: usize = 0;
    assert(s@.skip(0) =~= s@);
    assert(Seq::<char>::empty() + s@ =~= s@);
    while i < s.len()
        invariant
            i <= s@.len(),
            forall|j: int| 0 <= j < cur@.len() ==> #[trigger] cur@[j] != '\n',
            lines(s@) == out.deep_view() + lines(cur@ + s@.skip(i as int)),
        decreases s@.len() - i,
    {
        let c = s[i];
        if c == '\n' {
            let ghost head = cur@;
            proof {
                assert(cur@ + s@.skip(i as int) =~= head + seq!['\n'] + s@.skip(i + 1));
                lemma_lines_after_newline(head, s@.skip(i + 1));
            }
            let mut line = cur;
            let n = line.len();
            if n > 0 && line[n - 1] == '\r' {
                line.pop();
            }
            assert(line@ =~= strip_cr(head));
            let ghost prev = out.deep_view();
            assert(line.deep_view() =~= line@);
            out.push(line);
            assert(out.deep_view() =~= prev.push(strip_cr(head)));
            cur = Vec::new();
            assert(Seq::<char>::empty() + s@.skip(i + 1) =~= s@.skip(i + 1));
            assert(prev + (seq![strip_cr(head)] + lines(s@.skip(i + 1))) =~= prev.push(
                strip_cr(head),
            ) + lines(s@.skip(i + 1)));
        } else {
            let ghost before = cur@;
            cur.push(c);
            assert(cur@ + s@.skip(i + 1) =~= before + s@.skip(i as int));
        }
        i = i + 1;
    }
    proof {
        assert(cur@ + s@.skip(i as int) =~= cur@);
        lemma_lines_no_newline(cur@);
    }
    if cur.len() > 0 {
        let ghost prev = out.deep_view();
        assert(cur.deep_view() =~= cur@);
        out.push(cur);
        assert(out.deep_view() =~= prev + seq![cur@]);
    } else {
        assert(out.deep_view() + Seq::<Seq<char>>::empty() =~= out.deep_view());
    }
    out
}

/// Appends `more` to `out`.
pub fn push_all(out: &mut Vec<char>, more: &[char])
    ensures
        final(out)@ == old(out)@ + more@,
{
    let ghost start = out@;
    let mut i: usize = 0;
    while i < more.len()
        invariant
            i <= more@.len(),
            out@ == start + more@.take(i as int),
        decreases more@.len() - i,
    {
        out.push(more[i]);
        i = i + 1;
        assert(out@ =~= start + more@.take(i as int));
    }
    assert(more@.take(i as int) =~= more@);
}

/// The lines `ls` joined with `sep` between neighbours (`[String]::join`).
pub open spec fn join(ls: Seq<Seq<char>>, sep: Seq<char>) -> Seq<char>
    decreases ls.len(),
{
    if ls.len() == 0 {
        seq![]
    } else if ls.len() == 1 {
        ls[0]
    } else {
        join(ls.drop_last(), sep) + sep + ls.last()
    }
}

/// A line whose last character is `'\r'`.
pub open spec fn ends_with_cr(l: Seq<char>) -> bool {
    l.len() > 0 && l.last() == '\r'
}

/// `join` read from the front: the first line, `sep`, then the others joined.
pub proof fn lemma_join_front(ls: Seq<Seq<char>>, sep: Seq<char>)
    requires
        ls.len() >= 2,
    ensures
        join(ls, sep) == ls[0] + sep + join(ls.drop_first(), sep),
    decreases ls.len(),
{
    let rest = ls.drop_first();
    if ls.len() == 2 {
        assert(ls.drop_last().len() == 1);
        assert(ls.drop_last()[0] == ls[0]);
        assert(rest.len() == 1);
        assert(rest[0] == ls[1]);
        assert(join(ls.drop_last(), sep) == ls[0]);
        assert(join(rest, sep) == ls[1]);
        assert(join(ls, sep) == join(ls.drop_last(), sep) + sep + ls.last());
    } else {
        let front = ls.drop_last();
        lemma_join_front(front, sep);
        assert(front.drop_first() =~= rest.drop_last());
        assert(rest.last() == ls.last());
        assert(front[0] == ls[0]);
        assert(join(rest, sep) == join(rest.drop_last(), sep) + sep + rest.last());
        assert(join(ls, sep) == join(front, sep) + sep + ls.last());
        assert(join(front, sep) == ls[0] + sep + join(front.drop_first(), sep));
        assert(ls[0] + sep + join(front.drop_first(), sep) + sep + ls.last() =~= ls[0] + sep + (
        join(rest.drop_last(), sep) + sep + rest.last()));
    }
}

/// No line of `s` holds a `'\n'`.
pub proof fn lemma_lines_hold_no_newline(s: Seq<char>)
    ensures
        forall|i: int, j: int|
            0 <= i < lines(s).len() && 0 <= j < lines(s)[i].len() ==> #[trigger] lines(s)[i][j]
                != '\n',
    decreases s.len(),
{
    if s.len() > 0 {
        let e = line_end(s);
        lemma_line_end_bound(s);
        if e < s.len() {
            let t = s.skip(e as int + 1);
            lemma_lines_hold_no_newline(t);
            let first = strip_cr(s.take(e as int));
            assert(lines(s) == seq![first] + lines(t));
            assert forall|i: int, j: int|
                0 <= i < lines(s).len() && 0 <= j < lines(s)[i].len() implies #[trigger] lines(
                s,
            )[i][j] != '\n' by {
                if i == 0 {
                    assert(lines(s)[i] == first);
                    assert(first[j] == s[j]);
                } else {
                    assert(lines(s)[i] == lines(t)[i - 1]);
                }
            }
        }
    }
}

/// The lines of a text made by joining `ls` with `sep` (`"\n"` or `"\r\n"`),
/// with one more `sep` at the end when `trailing`. Each line holds no `'\n'`,
/// and with `"\n"` none ends in `'\r'`. The lines come back as they were,
/// except that an empty last line with no line ending after it is not seen.
pub proof fn lemma_lines_of_join(ls: Seq<Seq<char>>, sep: Seq<char>, trailing: bool)
    requires
        ls.len() > 0,
        sep == seq!['\n'] || sep == seq!['\r', '\n'],
        forall|i: int, j: int| 0 <= i < ls.len() && 0 <= j < ls[i].len() ==> #[trigger] ls[i][j] != '\n',
        sep == seq!['\n'] ==> forall|i: int| 0 <= i < ls.len() ==> !ends_with_cr(#[trigger] ls[i]),
    ensures
        lines(join(ls, sep) + (if trailing {
            sep
        } else {
            Seq::<char>::empty()
        })) == (if !trailing && ls.last().len() == 0 {
            ls.drop_last()
        } else {
            ls
        }),
    decreases ls.len(),
{
    let x = ls[0];
    let tail_text = if trailing {
        sep
    } else {
        Seq::<char>::empty()
    };
    assert forall|j: int| 0 <= j < x.len() implies #[trigger] x[j] != '\n' by {
        assert(ls[0][j] != '\n');
    }
    // The line ending after `x` read as `head` then `'\n'`, with `strip_cr(head) == x`.
    let head = if sep == seq!['\n'] {
        x
    } else {
        x.push('\r')
    };
    assert forall|j: int| 0 <= j < head.len() implies #[trigger] head[j] != '\n' by {
        if j < x.len() {
            assert(head[j] == x[j]);
        }
    }
    assert(strip_cr(head) == x) by {
        if sep == seq!['\n'] {
            assert(!ends_with_cr(ls[0]));
        } else {
            assert(head.drop_last() =~= x);
        }
    }
    assert(x + sep =~= head + seq!['\n']);
    if ls.len() == 1 {
        assert(join(ls, sep) == x);
        if trailing {
            lemma_lines_after_newline(head, Seq::<char>::empty());
            assert(head + seq!['\n'] + Seq::<char>::empty() =~= x + sep);
            assert(lines(Seq::<char>::empty()) == Seq::<Seq<char>>::empty());
            assert(seq![strip_cr(head)] + Seq::<Seq<char>>::empty() =~= ls);
        } else {
            assert(x + Seq::<char>::empty() =~= x);
            lemma_lines_no_newline(x);
            if x.len() == 0 {
                assert(ls.drop_last() =~= Seq::<Seq<char>>::empty());
            } else {
                assert(ls =~= seq![x]);
            }
        }
    } else if !trailing && ls.last().len() == 0 {
        let front = ls.drop_last();
        assert forall|i: int, j: int|
            0 <= i < front.len() && 0 <= j < front[i].len() implies #[trigger] front[i][j]
                != '\n' by {
            assert(front[i] == ls[i]);
        }
        assert forall|i: int| sep == seq!['\n'] && 0 <= i < front.len() implies !ends_with_cr(
            #[trigger] front[i],
        ) by {
            assert(front[i] == ls[i]);
        }
        lemma_lines_of_join(front, sep, true);
        assert(join(ls, sep) == join(front, sep) + sep + ls.last());
        assert(join(ls, sep) + Seq::<char>::empty() =~= join(front, sep) + sep);
    } else {
        let rest = ls.drop_first();
        assert forall|i: int, j: int|
            0 <= i < rest.len() && 0 <= j < rest[i].len() implies #[trigger] rest[i][j]
                != '\n' by {
            assert(rest[i] == ls[i + 1]);
        }
        assert forall|i: int| sep == seq!['\n'] && 0 <= i < rest.len() implies !ends_with_cr(
            #[trigger] rest[i],
        ) by {
            assert(rest[i] == ls[i + 1]);
        }
        lemma_lines_of_join(rest, sep, trailing);
        assert(rest.last() == ls.last());
        lemma_join_front(ls, sep);
        let more = join(rest, sep) + tail_text;
        assert(join(ls, sep) + tail_text =~= head + seq!['\n'] + more);
        lemma_lines_after_newline(head, more);
        assert(seq![x] + rest =~= ls);
    }
}

/// Joins `ls` with `sep` between neighbours.
pub fn join_lines(ls: &Vec<Vec<char>>, sep: &[char]) -> (out: Vec<char>)
    ensures
        out@ == join(ls.deep_view(), sep@),
{
    let mut out: Vec<char> = Vec::new();
    let mut i: usize = 0;
    while i < ls.len()
        invariant
            i <= ls@.len(),
            out@ == join(ls.deep_view().take(i as int), sep@),
        decreases ls@.len() - i,
    {
        let ghost prefix = ls.deep_view().take(i as int);
        if i > 0 {
            push_all(&mut out, sep);
        }
        push_all(&mut out, ls[i].as_slice());
        proof {
            let next = ls.deep_view().take(i + 1);
            assert(next.drop_last() =~= prefix);
            assert(ls@[i as int].deep_view() =~= ls@[i as int]@);
            assert(next.last() == ls@[i as int]@);
            if i == 0 {
                assert(out@ =~= ls@[0]@);
            }
        }
        i = i + 1;
    }
    assert(ls.deep_view().take(i as int) =~= ls.deep_view());
    out
}

} // verus!

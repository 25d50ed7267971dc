//! Character-level string operations, each with a contract over `Seq<char>`.
use vstd::prelude::*;

verus! {

/// Whether `c` has the Unicode `White_Space` property, the set of characters
/// that `char::is_whitespace` (and therefore `str::trim`) recognises.
pub open spec fn is_white(c: char) -> bool {
    let u = c as u32;
    ||| 0x9 <= u <= 0xd
    ||| u == 0x20
    ||| u == 0x85
    ||| u == 0xa0
    ||| u == 0x1680
    ||| 0x2000 <= u <= 0x200a
    ||| u == 0x2028
    ||| u == 0x2029
    ||| u == 0x202f
    ||| u == 0x205f
    ||| u == 0x3000
}

/// `s` without its leading whitespace.
pub open spec fn trim_start_seq(s: Seq<char>) -> Seq<char>
    decreases s.len(),
{
    if s.len() > 0 && is_white(s[0]) {
        trim_start_seq(s.drop_first())
    } else {
        s
    }
}

/// `s` without its trailing whitespace.
pub open spec fn trim_end_seq(s: Seq<char>) -> Seq<char>
    decreases s.len(),
{
    if s.len() > 0 && is_white(s.last()) {
        trim_end_seq(s.drop_last())
    } else {
        s
    }
}

/// `s` without leading and trailing whitespace.
pub open spec fn trim_seq(s: Seq<char>) -> Seq<char> {
    trim_end_seq(trim_start_seq(s))
}

/// Whether `pat` occurs in `hay` as a contiguous run.
pub open spec fn occurs_in(pat: Seq<char>, hay: Seq<char>) -> bool {
    exists|i: int| 0 <= i && i + pat.len() <= hay.len() && #[trigger] hay.subrange(i, i + pat.len()) == pat
}

/// Index of the first `'\n'` in `s`, or `s.len()` when there is none.
pub open spec fn line_end(s: Seq<char>) -> nat
    decreases s.len(),
{
    if s.len() == 0 {
        0
    } else if s[0] == '\n' {
        0
    } else {
        1 + line_end(s.drop_first())
    }
}

/// `line` without one trailing carriage return.
pub open spec fn strip_cr(line: Seq<char>) -> Seq<char> {
    if line.len() > 0 && line.last() == '\r' {
        line.drop_last()
    } else {
        line
    }
}

/// The lines of `s` as `str::lines` yields them: split after each `'\n'`,
/// with the `'\n'` (or a `"\r\n"`) removed; a final line ending is optional.
pub open spec fn lines_seq(s: Seq<char>) -> Seq<Seq<char>>
    decreases s.len(),
{
    if s.len() == 0 {
        seq![]
    } else {
        let k = line_end(s);
        if k < s.len() {
            seq![strip_cr(s.take(k as int))] + lines_seq(s.skip(k + 1 as int))
        } else {
            seq![s]
        }
    }
}

/// The pieces of `list` joined with `sep` between consecutive pieces.
pub open spec fn join_seq(list: Seq<Seq<char>>, sep: Seq<char>) -> Seq<char>
    decreases list.len(),
{
    if list.len() == 0 {
        seq![]
    } else if list.len() == 1 {
        list[0]
    } else {
        join_seq(list.drop_last(), sep) + sep + list.last()
    }
}

/// The character views of a sequence of strings.
pub open spec fn views_of(list: Seq<String>) -> Seq<Seq<char>> {
    list.map_values(|s: String| s@)
}

/// The lowercase mapping of `s` as `str::to_lowercase` computes it from the
/// Unicode tables of the standard library.
pub uninterp spec fn lowercase_of(s: Seq<char>) -> Seq<char>;

/// Calls `str::to_lowercase`. The contract claims that the result is a
/// function of the input's characters (named `lowercase_of`), and that a
/// non-empty input gives a non-empty result: each character is replaced by
/// its lowercase mapping, which `char::to_lowercase` documents as one or
/// more characters. The Unicode case-mapping tables themselves are not
/// stated.
#[verifier::external_body]
pub(crate) fn to_lowercase(s: &str) -> (out: String)
    ensures
        out@ == lowercase_of(s@),
        s@.len() > 0 ==> out@.len() > 0,
{
    s.to_lowercase()
}

/// Calls `String::push`, which appends one character.
#[verifier::external_body]
pub(crate) fn push_char(s: &mut String, c: char)
    ensures
        final(s)@ == old(s)@.push(c),
{
    s.push(c)
}

/// Calls `String::pop`, which removes and returns the last character, or
/// returns `None` and leaves an empty string as it is.
#[verifier::external_body]
pub(crate) fn pop_char(s: &mut String) -> (out: Option<char>)
    ensures
        old(s)@.len() == 0 ==> out is None && final(s)@ == old(s)@,
        old(s)@.len() > 0 ==> out == Some(old(s)@.last()) && final(s)@ == old(s)@.drop_last(),
{
    s.pop()
}

/// The characters of `s`, in order.
pub fn chars_of(s: &str) -> (out: Vec<char>)
    ensures
        out@ == s@,
{
    let mut out: Vec<char> = Vec::new();
    for c in it: s.chars()
        invariant
            out@ == it.seq().take(it.index() as int),
            it.seq() == s@,
    {
        out.push(c);
    }
    out
}

/// An owned copy of the characters `from..to` of `s`.
pub fn slice_of(s: &str, from: usize, to: usize) -> (out: String)
    requires
        from <= to <= s@.len(),
    ensures
        out@ == s@.subrange(from as int, to as int),
{
    String::from_str(s.substring_char(from, to))
}

/// Whether `c` is a whitespace character.
pub fn is_whitespace(c: char) -> (b: bool)
    ensures
        b == is_white(c),
{
    let u = c as u32;
    (0x9 <= u && u <= 0xd) || u == 0x20 || u == 0x85 || u == 0xa0 || u == 0x1680 || (0x2000 <= u
        && u <= 0x200a) || u == 0x2028 || u == 0x2029 || u == 0x202f || u == 0x205f || u == 0x3000
}

/// Whether `p` is a prefix of `s`.
pub fn starts_with(s: &str, p: &str) -> (b: bool)
    ensures
        b == p@.is_prefix_of(s@),
{
    let sv = chars_of(s);
    let pv = chars_of(p);
    if pv.len() > sv.len() {
        return false;
    }
    let mut i: usize = 0;
    while i < pv.len()
        invariant
            sv@ == s@,
            pv@ == p@,
            pv.len() <= sv.len(),
            i <= pv.len(),
            forall|j: int| 0 <= j < i ==> sv@[j] == pv@[j],
        decreases pv.len() - i,
    {
        if sv[i] != pv[i] {
            return false;
        }
        i = i + 1;
    }
    assert(p@ =~= s@.subrange(0, p@.len() as int));
    true
}

/// Whether `s` is non-empty and begins with `c`.
pub fn starts_with_char(s: &str, c: char) -> (b: bool)
    ensures
        b == (s@.len() > 0 && s@[0] == c),
{
    let n = s.unicode_len();
    n > 0 && s.get_char(0) == c
}

/// Whether the two strings hold the same characters.
pub fn same_text(a: &str, b: &str) -> (r: bool)
    ensures
        r == (a@ == b@),
{
    let n = a.unicode_len();
    let r = n == b.unicode_len() && starts_with(a, b);
    proof {
        if r {
            assert(a@ =~= b@);
        }
    }
    r
}

/// Whether `pat` occurs in `hay`.
pub fn contains_text(hay: &str, pat: &str) -> (b: bool)
    ensures
        b == occurs_in(pat@, hay@),
{
    let h = chars_of(hay);
    let p = chars_of(pat);
    if p.len() > h.len() {
        return false;
    }
    if p.len() == 0 {
        assert(hay@.subrange(0int, 0int + pat@.len()) =~= pat@);
        return true;
    }
    let last = h.len() - p.len();
    let mut i: usize = 0;
    while i < last + 1
        invariant
            p.len() > 0,
            h@ == hay@,
            p@ == pat@,
            last == h.len() - p.len(),
            p.len() <= h.len(),
            forall|k: int| 0 <= k < i ==> #[trigger] h@.subrange(k, k + p@.len()) != p@,
        decreases last + 1 - i,
    {
        let mut j: usize = 0;
        let mut same = true;
        while j < p.len()
            invariant
                h@ == hay@,
                p@ == pat@,
                i <= last,
                last == h.len() - p.len(),
                j <= p.len(),
                same == (forall|m: int| 0 <= m < j ==> h@[i + m] == p@[m]),
            decreases p.len() - j,
        {
            if h[i + j] != p[j] {
                same = false;
            }
            j = j + 1;
        }
        if same {
            assert(h@.subrange(i as int, i + p@.len()) =~= p@);
            return true;
        }
        assert(h@.subrange(i as int, i + p@.len())[0] == h@[i as int]);
        assert(!(h@.subrange(i as int, i + p@.len()) =~= p@));
        i = i + 1;
    }
    assert forall|k: int| 0 <= k && k + pat@.len() <= hay@.len() implies #[trigger] hay@.subrange(k, k + pat@.len()) != pat@ by {
        assert(k < i);
    }
    false
}

/// Index of the last occurrence of `c` in `v`.
pub fn last_index_of(v: &Vec<char>, c: char) -> (r: Option<usize>)
    ensures
        match r {
            Some(k) => k < v@.len() && v@[k as int] == c && forall|j: int|
                k < j < v@.len() ==> v@[j] != c,
            None => forall|j: int| 0 <= j < v@.len() ==> v@[j] != c,
        },
{
    let mut i = v.len();
    while i > 0
        invariant
            i <= v.len(),
            forall|j: int| i <= j < v@.len() ==> v@[j] != c,
        decreases i,
    {
        if v[i - 1] == c {
            return Some(i - 1);
        }
        i = i - 1;
    }
    None
}

proof fn lemma_trim_end_step(s: Seq<char>, e: int)
    requires
        0 < e <= s.len(),
        is_white(s[e - 1]),
    ensures
        trim_end_seq(s.take(e)) == trim_end_seq(s.take(e - 1)),
{
    assert(s.take(e).drop_last() =~= s.take(e - 1));
}

proof fn lemma_trim_start_step(s: Seq<char>, b: int)
    requires
        0 <= b < s.len(),
        is_white(s[b]),
    ensures
        trim_start_seq(s.skip(b)) == trim_start_seq(s.skip(b + 1)),
{
    assert(s.skip(b).drop_first() =~= s.skip(b + 1));
}

/// `s` without trailing whitespace, as `str::trim_end` computes it.
pub fn trim_end(s: &str) -> (out: String)
    ensures
        out@ == trim_end_seq(s@),
{
    let v = chars_of(s);
    let mut e = v.len();
    assert(s@.take(e as int) =~= s@);
    while e > 0 && is_whitespace(v[e - 1])
        invariant
            v@ == s@,
            e <= v.len(),
            trim_end_seq(s@) == trim_end_seq(s@.take(e as int)),
        decreases e,
    {
        proof {
            lemma_trim_end_step(s@, e as int);
        }
        e = e - 1;
    }
    let out = slice_of(s, 0, e);
    assert(out@ =~= s@.take(e as int));
    out
}

/// `s` without leading and trailing whitespace, as `str::trim` computes it.
pub fn trim(s: &str) -> (out: String)
    ensures
        out@ == trim_seq(s@),
{
    let v = chars_of(s);
    let n = v.len();
    let mut b: usize = 0;
    assert(s@.skip(0) =~= s@);
    while b < n && is_whitespace(v[b])
        invariant
            v@ == s@,
            n == v.len(),
            b <= n,
            trim_start_seq(s@) == trim_start_seq(s@.skip(b as int)),
        decreases n - b,
    {
        proof {
            lemma_trim_start_step(s@, b as int);
        }
        b = b + 1;
    }
    proof {
        if b < n {
            assert(s@.skip(b as int)[0] == s@[b as int]);
        }
        assert(s@.skip(b as int) =~= s@.subrange(b as int, n as int));
    }
    let mut e = n;
    assert(s@.subrange(b as int, n as int).take((e - b) as int) =~= s@.subrange(b as int, n as int));
    while e > b && is_whitespace(v[e - 1])
        invariant
            v@ == s@,
            n == v.len(),
            b <= e <= n,
            trim_start_seq(s@) == s@.subrange(b as int, n as int),
            trim_end_seq(s@.subrange(b as int, n as int)) == trim_end_seq(
                s@.subrange(b as int, n as int).take((e - b) as int),
            ),
        decreases e,
    {
        proof {
            let t = s@.subrange(b as int, n as int);
            assert(t[(e - b - 1) as int] == s@[e - 1]);
            lemma_trim_end_step(t, (e - b) as int);
        }
        e = e - 1;
    }
    let out = slice_of(s, b, e);
    assert(out@ =~= s@.subrange(b as int, n as int).take((e - b) as int));
    out
}

proof fn lemma_line_end(s: Seq<char>, k: int)
    requires
        0 <= k <= s.len(),
        forall|j: int| 0 <= j < k ==> s[j] != '\n',
        k == s.len() || s[k] == '\n',
    ensures
        line_end(s) == k,
    decreases k,
{
    if k > 0 {
        lemma_line_end(s.drop_first(), k - 1);
    }
}

/// The lines of `s`, as `str::lines` yields them.
pub fn lines(s: &str) -> (out: Vec<String>)
    ensures
        views_of(out@) == lines_seq(s@),
{
    let v = chars_of(s);
    let n = v.len();
    let mut out: Vec<String> = Vec::new();
    let mut start: usize = 0;
    let mut i: usize = 0;
    assert(s@.skip(0) =~= s@);
    while i < n
        invariant
            v@ == s@,
            n == v.len(),
            start <= i <= n,
            forall|j: int| start <= j < i ==> v@[j] != '\n',
            lines_seq(s@) == views_of(out@) + lines_seq(s@.skip(start as int)),
        decreases n - i,
    {
        if v[i] == '\n' {
            let ghost t = s@.skip(start as int);
            proof {
                lemma_line_end(t, i - start);
                assert(t.skip(i - start + 1) =~= s@.skip(i + 1));
            }
            let end = if i > start && v[i - 1] == '\r' {
                i - 1
            } else {
                i
            };
            let piece = slice_of(s, start, end);
            proof {
                assert(piece@ =~= strip_cr(t.take(i - start)));
            }
            let ghost prev = out@;
            out.push(piece);
            proof {
                assert(views_of(out@) =~= views_of(prev).push(piece@));
                assert(lines_seq(t) == seq![piece@] + lines_seq(s@.skip(i + 1)));
                assert(views_of(prev) + (seq![piece@] + lines_seq(s@.skip(i + 1))) =~= views_of(
                    out@,
                ) + lines_seq(s@.skip(i + 1)));
            }
            start = i + 1;
        }
        i = i + 1;
    }
    proof {
        let t = s@.skip(start as int);
        lemma_line_end(t, t.len() as int);
    }
    if start < n {
        let piece = slice_of(s, start, n);
        proof {
            assert(piece@ =~= s@.skip(start as int));
        }
        let ghost prev = out@;
        out.push(piece);
        proof {
            assert(views_of(out@) =~= views_of(prev).push(piece@));
        }
    } else {
        assert(s@.skip(start as int) =~= Seq::<char>::empty());
    }
    out
}

/// The strings of `list` joined with `sep` between consecutive ones.
pub fn join(list: &Vec<String>, sep: &str) -> (out: String)
    ensures
        out@ == join_seq(views_of(list@), sep@),
{
    let mut out = String::new();
    let ghost all = views_of(list@);
    let mut i: usize = 0;
    while i < list.len()
        invariant
            all == views_of(list@),
            i <= list.len(),
            out@ == join_seq(all.take(i as int), sep@),
        decreases list.len() - i,
    {
        proof {
            assert(all.take(i + 1).drop_last() =~= all.take(i as int));
        }
        if i > 0 {
            out.append(sep);
        }
        out.append(list[i].as_str());
        proof {
            if i == 0 {
                assert(out@ =~= all.take(1)[0]);
            }
        }
        i = i + 1;
    }
    assert(all.take(list.len() as int) =~= all);
    out
}

// ------------------------------------------------------------------------
// Facts about lines
// ------------------------------------------------------------------------

/// `line_end` is the index of the first newline, or the length.
pub proof fn lemma_line_end_facts(s: Seq<char>)
    ensures
        line_end(s) <= s.len(),
        forall|j: int| 0 <= j < line_end(s) ==> s[j] != '\n',
        line_end(s) < s.len() ==> s[line_end(s) as int] == '\n',
    decreases s.len(),
{
    if s.len() > 0 && s[0] != '\n' {
        lemma_line_end_facts(s.drop_first());
        assert forall|j: int| 0 <= j < line_end(s) implies s[j] != '\n' by {
            if j > 0 {
                assert(s[j] == s.drop_first()[j - 1]);
            }
        }
    }
}

/// Splitting after a newline splits the lines: the lines of
/// `a + "\n" + b` are those of `a + "\n"` followed by those of `b`.
pub proof fn lemma_lines_split(a: Seq<char>, b: Seq<char>)
    ensures
        lines_seq(a + seq!['\n'] + b) == lines_seq(a + seq!['\n']) + lines_seq(b),
    decreases a.len(),
{
    let an = a + seq!['\n'];
    let s = an + b;
    lemma_line_end_facts(an);
    let k = line_end(an) as int;
    assert(k < an.len()) by {
        if k == an.len() {
            assert(an[a.len() as int] == '\n');
        }
    }
    assert forall|j: int| 0 <= j < k implies s[j] != '\n' by {
        assert(s[j] == an[j]);
    }
    lemma_line_end(s, k);
    assert(s.take(k) =~= an.take(k));
    if k < a.len() {
        let rest = a.skip(k + 1);
        assert(s.skip(k + 1) =~= rest + seq!['\n'] + b);
        assert(an.skip(k + 1) =~= rest + seq!['\n']);
        lemma_lines_split(rest, b);
        assert(lines_seq(s) =~= seq![strip_cr(an.take(k))] + lines_seq(rest + seq!['\n'] + b));
        assert(lines_seq(an) =~= seq![strip_cr(an.take(k))] + lines_seq(rest + seq!['\n']));
    } else {
        assert(s.skip(k + 1) =~= b);
        assert(an.skip(k + 1) =~= Seq::<char>::empty());
        assert(lines_seq(an.skip(k + 1)) =~= Seq::<Seq<char>>::empty());
        assert(lines_seq(an) =~= seq![strip_cr(an.take(k))]);
    }
}

/// A text without newlines followed by one newline is one line.
pub proof fn lemma_one_line(a: Seq<char>)
    requires
        forall|j: int| 0 <= j < a.len() ==> a[j] != '\n',
    ensures
        lines_seq(a + seq!['\n']) == seq![strip_cr(a)],
{
    let an = a + seq!['\n'];
    lemma_line_end(an, a.len() as int);
    assert(an.take(a.len() as int) =~= a);
    assert(an.skip(a.len() + 1int) =~= Seq::<char>::empty());
    assert(lines_seq(an.skip(a.len() + 1int)) =~= Seq::<Seq<char>>::empty());
    assert(lines_seq(an) =~= seq![strip_cr(a)]);
}

/// What occurs in a line occurs in the text.
pub proof fn lemma_lines_occur_in_text(s: Seq<char>, pat: Seq<char>, i: int)
    requires
        0 <= i < lines_seq(s).len(),
        occurs_in(pat, lines_seq(s)[i]),
    ensures
        occurs_in(pat, s),
    decreases s.len(),
{
    lemma_line_end_facts(s);
    let k = line_end(s) as int;
    let line = lines_seq(s)[i];
    let w = choose|w: int| 0 <= w && w + pat.len() <= line.len() && #[trigger] line.subrange(w, w + pat.len()) == pat;
    if k < s.len() {
        if i == 0 {
            assert(line == strip_cr(s.take(k)));
            assert(s.subrange(w, w + pat.len()) =~= line.subrange(w, w + pat.len()));
        } else {
            let rest = s.skip(k + 1);
            assert(lines_seq(s) =~= seq![strip_cr(s.take(k))] + lines_seq(rest));
            assert(line == lines_seq(rest)[i - 1]);
            lemma_lines_occur_in_text(rest, pat, i - 1);
            let v = choose|v: int| 0 <= v && v + pat.len() <= rest.len() && #[trigger] rest.subrange(v, v + pat.len()) == pat;
            assert(s.subrange(k + 1 + v, k + 1 + v + pat.len()) =~= rest.subrange(v, v + pat.len()));
        }
    } else {
        assert(line == s);
        assert(s.subrange(w, w + pat.len()) == pat);
    }
}

/// A pattern that does not end with a newline and occurs in `a + "\n"`
/// occurs in `a`.
pub proof fn lemma_occurs_before_newline(a: Seq<char>, pat: Seq<char>)
    requires
        pat.len() > 0,
        pat.last() != '\n',
        occurs_in(pat, a + seq!['\n']),
    ensures
        occurs_in(pat, a),
{
    let an = a + seq!['\n'];
    let w = choose|w: int| 0 <= w && w + pat.len() <= an.len() && #[trigger] an.subrange(w, w + pat.len()) == pat;
    if w + pat.len() == an.len() {
        assert(an.subrange(w, w + pat.len())[pat.len() - 1] == an[an.len() - 1]);
    }
    assert(a.subrange(w, w + pat.len()) =~= an.subrange(w, w + pat.len()));
}

/// What occurs in a prefix occurs in the text.
pub proof fn lemma_occurs_in_prefix(a: Seq<char>, m: int, pat: Seq<char>)
    requires
        0 <= m <= a.len(),
        occurs_in(pat, a.take(m)),
    ensures
        occurs_in(pat, a),
{
    let t = a.take(m);
    let w = choose|w: int| 0 <= w && w + pat.len() <= t.len() && #[trigger] t.subrange(w, w + pat.len()) == pat;
    assert(a.subrange(w, w + pat.len()) =~= t.subrange(w, w + pat.len()));
}

/// `trim_end_seq(s)` is a prefix of `s`.
pub proof fn lemma_trim_end_is_prefix(s: Seq<char>)
    ensures
        trim_end_seq(s).len() <= s.len(),
        trim_end_seq(s) == s.take(trim_end_seq(s).len() as int),
    decreases s.len(),
{
    if s.len() > 0 && is_white(s.last()) {
        lemma_trim_end_is_prefix(s.drop_last());
        let t = trim_end_seq(s.drop_last());
        assert(s.drop_last().take(t.len() as int) =~= s.take(t.len() as int));
    } else {
        assert(s.take(s.len() as int) =~= s);
    }
}

/// A pattern without newlines that occurs in `a + "\n" + b` occurs in `a`
/// or in `b`.
pub proof fn lemma_occurs_split(a: Seq<char>, b: Seq<char>, pat: Seq<char>)
    requires
        forall|j: int| 0 <= j < pat.len() ==> pat[j] != '\n',
        occurs_in(pat, a + seq!['\n'] + b),
    ensures
        occurs_in(pat, a) || occurs_in(pat, b),
{
    let s = a + seq!['\n'] + b;
    let w = choose|w: int| 0 <= w && w + pat.len() <= s.len() && #[trigger] s.subrange(w, w + pat.len()) == pat;
    if w + pat.len() <= a.len() {
        assert(a.subrange(w, w + pat.len()) =~= s.subrange(w, w + pat.len()));
    } else if w > a.len() {
        let v = w - a.len() - 1;
        assert(b.subrange(v, v + pat.len()) =~= s.subrange(w, w + pat.len()));
    } else {
        assert(s.subrange(w, w + pat.len())[a.len() - w] == s[a.len() as int]);
    }
}

} // verus!

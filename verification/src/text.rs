//! Character-sequence utilities: Unicode whitespace trimming, line splitting,
//! joining, literal replacement and conversions between `String` and `Vec<char>`.

use vstd::prelude::*;

verus! {

broadcast use vstd::string::group_string_axioms;

/// The Unicode `White_Space` property, which `char::is_whitespace` tests.
pub open spec fn is_white_space(c: char) -> bool {
    let u = c as u32;
    ||| 0x9 <= u <= 0xd
    ||| u == 0x20
    ||| u == 0x85
    ||| u == 0xa0
    ||| u == 0x1680
    ||| 0x2000 <= u <= 0x200a
    ||| u == 0x2028
    ||| u == 0x2029
    ||| u == 0x202f
    ||| u == 0x205f
    ||| u == 0x3000
}

/// Whether `c` is whitespace.
pub fn is_whitespace_char(c: char) -> (b: bool)
    ensures
        b == is_white_space(c),
{
    let u = c as u32;
    (0x9 <= u && u <= 0xd) || u == 0x20 || u == 0x85 || u == 0xa0 || u == 0x1680 || (0x2000
        <= u && u <= 0x200a) || u == 0x2028 || u == 0x2029 || u == 0x202f || u == 0x205f || u
        == 0x3000
}

/// The characters of `s`, in order.
pub fn to_chars(s: &str) -> (v: Vec<char>)
    ensures
        v@ == s@,
{
    let mut v: Vec<char> = Vec::new();
    for c in it: s.chars()
        invariant
            v@ == it.seq().take(it.index() as int),
            it.seq() == s@,
    {
        v.push(c);
    }
    v
}


/// `s` without its leading whitespace.
pub open spec fn trim_start(s: Seq<char>) -> Seq<char>
    decreases s.len(),
{
    if s.len() > 0 && is_white_space(s[0]) {
        trim_start(s.subrange(1, s.len() as int))
    } else {
        s
    }
}

/// `s` without its trailing whitespace.
pub open spec fn trim_end(s: Seq<char>) -> Seq<char>
    decreases s.len(),
{
    if s.len() > 0 && is_white_space(s.last()) {
        trim_end(s.drop_last())
    } else {
        s
    }
}

/// `s` without leading and trailing whitespace, as `str::trim` gives it.
pub open spec fn trim(s: Seq<char>) -> Seq<char> {
    trim_end(trim_start(s))
}

/// Removes leading and trailing whitespace.
pub fn trim_chars(s: &[char]) -> (r: Vec<char>)
    ensures
        r@ == trim(s@),
{
    let n = s.len();
    let mut i: usize = 0;
    assert(s@.subrange(0, n as int) =~= s@);
    while i < n && is_whitespace_char(s[i])
        invariant
            i <= n,
            n == s@.len(),
            trim_start(s@) == trim_start(s@.subrange(i as int, n as int)),
        decreases n - i,
    {
        assert(s@.subrange(i as int, n as int).subrange(1, (n - i) as int) =~= s@.subrange(
            i + 1,
            n as int,
        ));
        i = i + 1;
    }
    let ghost front = s@.subrange(i as int, n as int);
    assert(trim_start(front) == front);
    let mut j: usize = n;
    while j > i && is_whitespace_char(s[j - 1])
        invariant
            i <= j <= n,
            n == s@.len(),
            front == s@.subrange(i as int, n as int),
            trim_end(front) == trim_end(s@.subrange(i as int, j as int)),
        decreases j,
    {
        assert(s@.subrange(i as int, j as int).drop_last() =~= s@.subrange(i as int, j - 1));
        j = j - 1;
    }
    let mut r: Vec<char> = Vec::new();
    let mut k: usize = i;
    while k < j
        invariant
            i <= k <= j <= n,
            n == s@.len(),
            r@ == s@.subrange(i as int, k as int),
        decreases j - k,
    {
        r.push(s[k]);
        k = k + 1;
        assert(r@ =~= s@.subrange(i as int, k as int));
    }
    r
}


/// Appends `s` to `out`.
pub fn append_chars(out: &mut Vec<char>, s: &[char])
    ensures
        final(out)@ == old(out)@ + s@,
{
    let ghost start = out@;
    let mut k: usize = 0;
    while k < s.len()
        invariant
            k <= s@.len(),
            out@ == start + s@.subrange(0, k as int),
        decreases s@.len() - k,
    {
        out.push(s[k]);
        k = k + 1;
        assert(out@ =~= start + s@.subrange(0, k as int));
    }
    assert(s@.subrange(0, s@.len() as int) =~= s@);
}

/// The views of a sequence of character vectors.
pub open spec fn views(v: Seq<Vec<char>>) -> Seq<Seq<char>> {
    v.map_values(|x: Vec<char>| x@)
}

/// The parts joined with `sep` between each two neighbours, as `Itertools::join` gives them.
pub open spec fn join(parts: Seq<Seq<char>>, sep: Seq<char>) -> Seq<char>
    decreases parts.len(),
{
    if parts.len() == 0 {
        Seq::empty()
    } else if parts.len() == 1 {
        parts[0]
    } else {
        join(parts.drop_last(), sep) + sep + parts.last()
    }
}

/// Joins `parts` with `sep` between each two neighbours.
pub fn join_chars(parts: &Vec<Vec<char>>, sep: &[char]) -> (r: Vec<char>)
    ensures
        r@ == join(views(parts@), sep@),
{
    let mut r: Vec<char> = Vec::new();
    let mut i: usize = 0;
    while i < parts.len()
        invariant
            i <= parts@.len(),
            r@ == join(views(parts@).take(i as int), sep@),
        decreases parts@.len() - i,
    {
        assert(views(parts@).take(i + 1).drop_last() =~= views(parts@).take(i as int));
        if i > 0 {
            append_chars(&mut r, sep);
        }
        append_chars(&mut r, parts[i].as_slice());
        i = i + 1;
    }
    assert(views(parts@).take(parts@.len() as int) =~= views(parts@));
    r
}

/// `line` without a final carriage return.
pub open spec fn strip_cr(line: Seq<char>) -> Seq<char> {
    if line.len() > 0 && line.last() == '\r' {
        line.drop_last()
    } else {
        line
    }
}

/// The finished lines and the line being read after reading `s` left to right.
pub open spec fn lines_state(s: Seq<char>) -> (Seq<Seq<char>>, Seq<char>)
    decreases s.len(),
{
    if s.len() == 0 {
        (Seq::empty(), Seq::empty())
    } else {
        let (done, cur) = lines_state(s.drop_last());
        if s.last() == '\n' {
            (done.push(strip_cr(cur)), Seq::empty())
        } else {
            (done, cur.push(s.last()))
        }
    }
}

/// The lines of `s` as `str::lines` gives them: split at each `\n`, a `\r` before
/// it removed, and no final empty line after a last `\n`.
pub open spec fn lines(s: Seq<char>) -> Seq<Seq<char>> {
    let (done, cur) = lines_state(s);
    if cur.len() > 0 {
        done.push(cur)
    } else {
        done
    }
}

/// Splits `s` into its lines.
pub fn split_lines(s: &[char]) -> (r: Vec<Vec<char>>)
    ensures
        views(r@) == lines(s@),
{
    let mut done: Vec<Vec<char>> = Vec::new();
    let mut cur: Vec<char> = Vec::new();
    let mut i: usize = 0;
    while i < s.len()
        invariant
            i <= s@.len(),
            (views(done@), cur@) == lines_state(s@.take(i as int)),
        decreases s@.len() - i,
    {
        assert(s@.take(i + 1).drop_last() =~= s@.take(i as int));
        let c = s[i];
        if c == '\n' {
            if cur.len() > 0 && cur[cur.len() - 1] == '\r' {
                cur.pop();
            }
            let line = cur;
            cur = Vec::new();
            done.push(line);
            assert(views(done@) =~= lines_state(s@.take(i as int)).0.push(line@));
        } else {
            cur.push(c);
        }
        i = i + 1;
    }
    assert(s@.take(s@.len() as int) =~= s@);
    if cur.len() > 0 {
        let ghost d = done@;
        done.push(cur);
        assert(views(done@) =~= views(d).push(cur@));
    }
    done
}


/// Every occurrence of `pat` in `s`, read left to right without overlap, replaced by `rep`,
/// as `str::replace` gives it for a non-empty `pat`.
pub open spec fn replace(s: Seq<char>, pat: Seq<char>, rep: Seq<char>) -> Seq<char>
    decreases s.len(),
{
    if s.len() == 0 {
        Seq::empty()
    } else if 0 < pat.len() <= s.len() && s.subrange(0, pat.len() as int) == pat {
        rep + replace(s.subrange(pat.len() as int, s.len() as int), pat, rep)
    } else {
        seq![s[0]] + replace(s.subrange(1, s.len() as int), pat, rep)
    }
}

/// Whether `pat` occurs in `s` at position `i`.
pub fn occurs_at(s: &[char], i: usize, pat: &[char]) -> (b: bool)
    requires
        i <= s@.len(),
    ensures
        b == (pat@.len() <= s@.len() - i && s@.subrange(i as int, i + pat@.len()) == pat@),
{
    if pat.len() > s.len() - i {
        return false;
    }
    let mut k: usize = 0;
    while k < pat.len()
        invariant
            i <= s@.len(),
            s@.len() == s.len(),
            i + pat@.len() <= s.len(),
            k <= pat@.len() <= s@.len() - i,
            s@.subrange(i as int, i + k) == pat@.subrange(0, k as int),
        decreases pat@.len() - k,
    {
        if s[i + k] != pat[k] {
            assert(s@.subrange(i as int, i + pat@.len())[k as int] != pat@[k as int]);
            return false;
        }
        k = k + 1;
        assert(s@.subrange(i as int, i + k) =~= pat@.subrange(0, k as int));
    }
    assert(pat@.subrange(0, pat@.len() as int) =~= pat@);
    true
}

/// Replaces every occurrence of the non-empty `pat` in `s` by `rep`.
pub fn replace_chars(s: &[char], pat: &[char], rep: &[char]) -> (r: Vec<char>)
    requires
        pat@.len() > 0,
    ensures
        r@ == replace(s@, pat@, rep@),
{
    let mut r: Vec<char> = Vec::new();
    let mut i: usize = 0;
    let n = s.len();
    assert(s@.subrange(0, n as int) =~= s@);
    while i < n
        invariant
            i <= n == s@.len(),
            pat@.len() > 0,
            replace(s@, pat@, rep@) == r@ + replace(s@.subrange(i as int, n as int), pat@, rep@),
        decreases n - i,
    {
        let ghost t = s@.subrange(i as int, n as int);
        if occurs_at(s, i, pat) {
            assert(t.subrange(0, pat@.len() as int) =~= s@.subrange(i as int, i + pat@.len()));
            assert(t.subrange(pat@.len() as int, t.len() as int) =~= s@.subrange(
                i + pat@.len(),
                n as int,
            ));
            append_chars(&mut r, rep);
            i = i + pat.len();
        } else {
            assert(!(t.subrange(0, pat@.len() as int) == pat@) || pat@.len() > t.len()) by {
                if pat@.len() <= t.len() {
                    assert(t.subrange(0, pat@.len() as int) =~= s@.subrange(
                        i as int,
                        i + pat@.len(),
                    ));
                }
            }
            assert(t.subrange(1, t.len() as int) =~= s@.subrange(i + 1, n as int));
            r.push(s[i]);
            i = i + 1;
        }
        assert(replace(s@, pat@, rep@) =~= r@ + replace(s@.subrange(i as int, n as int), pat@, rep@));
    }
    r
}

/// How one character is written after escaping: `<` as `&lt;`, `>` as `&gt;`.
pub open spec fn escape_char(c: char) -> Seq<char> {
    if c == '<' {
        seq!['&', 'l', 't', ';']
    } else if c == '>' {
        seq!['&', 'g', 't', ';']
    } else {
        seq![c]
    }
}

/// The text with `<` written as `&lt;` and `>` as `&gt;`.
pub open spec fn escape_angles(s: Seq<char>) -> Seq<char>
    decreases s.len(),
{
    if s.len() == 0 {
        Seq::empty()
    } else {
        escape_char(s[0]) + escape_angles(s.subrange(1, s.len() as int))
    }
}

/// Writes `<` as `&lt;` and `>` as `&gt;`.
pub fn escape_angle_chars(s: &[char]) -> (r: Vec<char>)
    ensures
        r@ == escape_angles(s@),
{
    let mut r: Vec<char> = Vec::new();
    let mut i: usize = 0;
    let n = s.len();
    assert(s@.subrange(0, n as int) =~= s@);
    while i < n
        invariant
            i <= n == s@.len(),
            escape_angles(s@) == r@ + escape_angles(s@.subrange(i as int, n as int)),
        decreases n - i,
    {
        let ghost t = s@.subrange(i as int, n as int);
        assert(t.subrange(1, t.len() as int) =~= s@.subrange(i + 1, n as int));
        let c = s[i];
        if c == '<' {
            append_chars(&mut r, &['&', 'l', 't', ';']);
        } else if c == '>' {
            append_chars(&mut r, &['&', 'g', 't', ';']);
        } else {
            r.push(c);
        }
        i = i + 1;
        assert(escape_angles(s@) =~= r@ + escape_angles(s@.subrange(i as int, n as int)));
    }
    assert(escape_angles(s@.subrange(n as int, n as int)) =~= Seq::<char>::empty());
    assert(r@ + Seq::<char>::empty() =~= r@);
    r
}

/// The text with `&lt;` read back as `<` and then `&gt;` as `>`.
pub open spec fn unescape_angles(s: Seq<char>) -> Seq<char> {
    replace(replace(s, seq!['&', 'l', 't', ';'], seq!['<']), seq!['&', 'g', 't', ';'], seq!['>'])
}


/// Builds a `String` from its characters with `String::from_iter`, which, as its
/// documentation says, gathers the characters in order.
#[verifier::external_body]
pub(crate) fn string_from_chars(cs: &[char]) -> (s: String)
    ensures
        s@ == cs@,
{
    String::from_iter(cs)
}

/// What `str::to_lowercase` returns for a text: the Unicode lowercase mapping of each
/// character, which depends on the text alone.
pub uninterp spec fn lowercase(s: Seq<char>) -> Seq<char>;

/// Calls `str::to_lowercase`; its result is named by `lowercase`.
#[verifier::external_body]
pub(crate) fn to_lowercase(s: &str) -> (r: String)
    ensures
        r@ == lowercase(s@),
{
    s.to_lowercase()
}

/// Reads `&lt;` back as `<` and `&gt;` as `>`.
pub fn unescape_angle_text(s: &str) -> (r: String)
    ensures
        r@ == unescape_angles(s@),
{
    let cs = to_chars(s);
    let lt = ['&', 'l', 't', ';'];
    let gt = ['&', 'g', 't', ';'];
    let open = ['<'];
    let close = ['>'];
    assert(lt@ =~= seq!['&', 'l', 't', ';']);
    assert(gt@ =~= seq!['&', 'g', 't', ';']);
    assert(open@ =~= seq!['<']);
    assert(close@ =~= seq!['>']);
    let once = replace_chars(cs.as_slice(), &lt, &open);
    let twice = replace_chars(once.as_slice(), &gt, &close);
    string_from_chars(twice.as_slice())
}

/// Whether two character sequences are equal.
pub fn chars_equal(a: &[char], b: &[char]) -> (r: bool)
    ensures
        r == (a@ == b@),
{
    if a.len() != b.len() {
        return false;
    }
    let mut k: usize = 0;
    while k < a.len()
        invariant
            k <= a@.len() == b@.len(),
            a@.subrange(0, k as int) == b@.subrange(0, k as int),
        decreases a@.len() - k,
    {
        if a[k] != b[k] {
            return false;
        }
        k = k + 1;
        assert(a@.subrange(0, k as int) =~= b@.subrange(0, k as int));
    }
    assert(a@ =~= a@.subrange(0, k as int));
    assert(b@ =~= b@.subrange(0, k as int));
    true
}

/// The decimal digit of `d`, which is less than ten.
pub open spec fn digit(d: nat) -> char {
    seq!['0', '1', '2', '3', '4', '5', '6', '7', '8', '9'][d as int]
}

/// The decimal digit of `d`.
fn digit_char(d: u64) -> (c: char)
    requires
        d < 10,
    ensures
        c == digit(d as nat),
{
    match d {
        0 => '0',
        1 => '1',
        2 => '2',
        3 => '3',
        4 => '4',
        5 => '5',
        6 => '6',
        7 => '7',
        8 => '8',
        _ => '9',
    }
}

/// The decimal representation of `n`, without leading zeros.
pub open spec fn decimal(n: nat) -> Seq<char>
    decreases n,
{
    if n < 10 {
        seq![digit(n)]
    } else {
        decimal(n / 10).push(digit(n % 10))
    }
}

/// Writes `n` in decimal.
pub fn decimal_chars(n: u64) -> (r: Vec<char>)
    ensures
        r@ == decimal(n as nat),
    decreases n,
{
    let c = digit_char(n % 10);
    if n < 10 {
        vec![c]
    } else {
        let mut r = decimal_chars(n / 10);
        r.push(c);
        r
    }
}


/// Replacing in a text that starts with the pattern replaces that occurrence first.
proof fn lemma_replace_hit(pat: Seq<char>, rest: Seq<char>, rep: Seq<char>)
    requires
        pat.len() > 0,
    ensures
        replace(pat + rest, pat, rep) == rep + replace(rest, pat, rep),
{
    let t = pat + rest;
    assert(t.subrange(0, pat.len() as int) =~= pat);
    assert(t.subrange(pat.len() as int, t.len() as int) =~= rest);
}

/// Replacing in a text whose first character does not start the pattern keeps it.
proof fn lemma_replace_skip(x: char, rest: Seq<char>, pat: Seq<char>, rep: Seq<char>)
    requires
        pat.len() > 0,
        x != pat[0],
    ensures
        replace(seq![x] + rest, pat, rep) == seq![x] + replace(rest, pat, rep),
{
    let t = seq![x] + rest;
    if pat.len() <= t.len() {
        assert(t.subrange(0, pat.len() as int)[0] == x);
    }
    assert(t.subrange(1, t.len() as int) =~= rest);
}

/// The text with only `>` written as `&gt;`.
pub open spec fn escape_gt(s: Seq<char>) -> Seq<char>
    decreases s.len(),
{
    if s.len() == 0 {
        Seq::empty()
    } else {
        (if s[0] == '>' {
            seq!['&', 'g', 't', ';']
        } else {
            seq![s[0]]
        }) + escape_gt(s.subrange(1, s.len() as int))
    }
}

proof fn lemma_unescape_lt(s: Seq<char>)
    requires
        !s.contains('&'),
    ensures
        replace(escape_angles(s), seq!['&', 'l', 't', ';'], seq!['<']) == escape_gt(s),
    decreases s.len(),
{
    let lt = seq!['&', 'l', 't', ';'];
    let rep = seq!['<'];
    if s.len() > 0 {
        let c = s[0];
        let rest = s.subrange(1, s.len() as int);
        assert(!rest.contains('&')) by {
            if rest.contains('&') {
                let k = choose|k: int| 0 <= k < rest.len() && rest[k] == '&';
                assert(s[k + 1] == '&');
            }
        }
        assert(c != '&') by {
            assert(s[0] == c);
        }
        lemma_unescape_lt(rest);
        let e = escape_angles(rest);
        if c == '<' {
            lemma_replace_hit(lt, e, rep);
        } else if c == '>' {
            let t = seq!['&', 'g', 't', ';'] + e;
            assert(t.subrange(1, t.len() as int) =~= seq!['g'] + (seq!['t'] + (seq![';'] + e)));
            assert(t.subrange(0, 4)[1] == 'g');
            lemma_replace_skip(';', e, lt, rep);
            lemma_replace_skip('t', seq![';'] + e, lt, rep);
            lemma_replace_skip('g', seq!['t'] + (seq![';'] + e), lt, rep);
            assert(replace(t, lt, rep) == seq!['&'] + replace(t.subrange(1, t.len() as int), lt, rep));
            assert(replace(t, lt, rep) =~= seq!['&', 'g', 't', ';'] + replace(e, lt, rep));
        } else {
            lemma_replace_skip(c, e, lt, rep);
        }
    }
}

proof fn lemma_unescape_gt(s: Seq<char>)
    requires
        !s.contains('&'),
    ensures
        replace(escape_gt(s), seq!['&', 'g', 't', ';'], seq!['>']) == s,
    decreases s.len(),
{
    let gt = seq!['&', 'g', 't', ';'];
    if s.len() > 0 {
        let c = s[0];
        let rest = s.subrange(1, s.len() as int);
        assert(!rest.contains('&')) by {
            if rest.contains('&') {
                let k = choose|k: int| 0 <= k < rest.len() && rest[k] == '&';
                assert(s[k + 1] == '&');
            }
        }
        assert(c != '&') by {
            assert(s[0] == c);
        }
        lemma_unescape_gt(rest);
        if c == '>' {
            lemma_replace_hit(gt, escape_gt(rest), seq!['>']);
        } else {
            lemma_replace_skip(c, escape_gt(rest), gt, seq!['>']);
        }
        assert(seq![c] + rest =~= s);
    }
}

/// Reading back an escaped text gives the text again, when it holds no `&`: a tag that
/// the preprocessor restores comes back exactly as it was written.
pub proof fn lemma_unescape_inverts_escape(s: Seq<char>)
    requires
        !s.contains('&'),
    ensures
        unescape_angles(escape_angles(s)) == s,
{
    lemma_unescape_lt(s);
    lemma_unescape_gt(s);
}


/// A text that starts and ends with a non-whitespace character, or is empty.
pub open spec fn is_trimmed(s: Seq<char>) -> bool {
    s.len() == 0 || (!is_white_space(s[0]) && !is_white_space(s.last()))
}

proof fn lemma_trim_start(s: Seq<char>)
    ensures
        trim_start(s).len() <= s.len(),
        trim_start(s) == s.subrange(s.len() - trim_start(s).len(), s.len() as int),
        trim_start(s).len() > 0 ==> !is_white_space(trim_start(s)[0]),
    decreases s.len(),
{
    if s.len() > 0 && is_white_space(s[0]) {
        let t = s.subrange(1, s.len() as int);
        lemma_trim_start(t);
        assert(t.subrange(t.len() - trim_start(t).len(), t.len() as int) =~= s.subrange(
            s.len() - trim_start(t).len(),
            s.len() as int,
        ));
    } else {
        assert(s.subrange(0, s.len() as int) =~= s);
    }
}

proof fn lemma_trim_end(s: Seq<char>)
    ensures
        trim_end(s).len() <= s.len(),
        trim_end(s) == s.subrange(0, trim_end(s).len() as int),
        trim_end(s).len() > 0 ==> !is_white_space(trim_end(s).last()),
    decreases s.len(),
{
    if s.len() > 0 && is_white_space(s.last()) {
        let t = s.drop_last();
        lemma_trim_end(t);
        assert(t.subrange(0, trim_end(t).len() as int) =~= s.subrange(0, trim_end(t).len() as int));
    } else {
        assert(s.subrange(0, s.len() as int) =~= s);
    }
}

/// Trimming gives a trimmed text.
pub proof fn lemma_trim_is_trimmed(s: Seq<char>)
    ensures
        is_trimmed(trim(s)),
{
    lemma_trim_start(s);
    let t = trim_start(s);
    lemma_trim_end(t);
    if trim(s).len() > 0 {
        assert(trim(s)[0] == t[0]);
    }
}

/// A trimmed text is its own trim.
pub proof fn lemma_trimmed_is_fixed(s: Seq<char>)
    requires
        is_trimmed(s),
    ensures
        trim(s) == s,
{
}

/// Joining non-empty trimmed parts gives a trimmed text, empty only when there are
/// no parts.
pub proof fn lemma_join_trimmed(parts: Seq<Seq<char>>, sep: Seq<char>)
    requires
        forall|i: int| 0 <= i < parts.len() ==> #[trigger] parts[i].len() > 0 && is_trimmed(
            parts[i],
        ),
    ensures
        is_trimmed(join(parts, sep)),
        parts.len() > 0 ==> join(parts, sep).len() > 0 && join(parts, sep)[0] == parts[0][0],
    decreases parts.len(),
{
    if parts.len() > 1 {
        let init = parts.drop_last();
        assert forall|i: int| 0 <= i < init.len() implies #[trigger] init[i].len() > 0 && is_trimmed(
            init[i],
        ) by {
            assert(init[i] == parts[i]);
        }
        lemma_join_trimmed(init, sep);
        let j = join(init, sep) + sep + parts.last();
        assert(j[0] == join(init, sep)[0]);
        assert(j.last() == parts.last().last());
        assert(parts.last() == parts[parts.len() - 1]);
    } else if parts.len() == 1 {
        assert(parts[0].len() > 0);
    }
}


/// Escaping leaves no angle bracket in the text: the parser sees none of the markup
/// until known tags are restored.
pub proof fn lemma_escape_removes_angles(s: Seq<char>)
    ensures
        !escape_angles(s).contains('<'),
        !escape_angles(s).contains('>'),
    decreases s.len(),
{
    if s.len() > 0 {
        let rest = s.subrange(1, s.len() as int);
        lemma_escape_removes_angles(rest);
        let head = escape_char(s[0]);
        let e = escape_angles(s);
        assert(e == head + escape_angles(rest));
        assert forall|k: int| 0 <= k < e.len() implies e[k] != '<' && e[k] != '>' by {
            if k < head.len() {
                assert(e[k] == head[k]);
            } else {
                assert(e[k] == escape_angles(rest)[k - head.len()]);
            }
        }
    }
}


/// A text without angle brackets is its own escape.
pub proof fn lemma_escape_plain(s: Seq<char>)
    requires
        !s.contains('<'),
        !s.contains('>'),
    ensures
        escape_angles(s) == s,
    decreases s.len(),
{
    if s.len() > 0 {
        let rest = s.subrange(1, s.len() as int);
        assert(!rest.contains('<') && !rest.contains('>')) by {
            if rest.contains('<') || rest.contains('>') {
                let k = choose|k: int| 0 <= k < rest.len() && (rest[k] == '<' || rest[k] == '>');
                assert(s[k + 1] == rest[k]);
            }
        }
        assert(s[0] != '<' && s[0] != '>') by {
            assert(s.contains(s[0]));
        }
        lemma_escape_plain(rest);
        assert(seq![s[0]] + rest =~= s);
    }
}

/// Replacing a pattern whose first character does not occur changes nothing.
proof fn lemma_replace_absent(s: Seq<char>, pat: Seq<char>, rep: Seq<char>)
    requires
        pat.len() > 0,
        !s.contains(pat[0]),
    ensures
        replace(s, pat, rep) == s,
    decreases s.len(),
{
    if s.len() > 0 {
        let rest = s.subrange(1, s.len() as int);
        assert(!rest.contains(pat[0])) by {
            if rest.contains(pat[0]) {
                let k = choose|k: int| 0 <= k < rest.len() && rest[k] == pat[0];
                assert(s[k + 1] == rest[k]);
            }
        }
        assert(s[0] != pat[0]) by {
            assert(s.contains(s[0]));
        }
        lemma_replace_absent(rest, pat, rep);
        lemma_replace_skip(s[0], rest, pat, rep);
        assert(seq![s[0]] + rest =~= s);
    }
}

/// Reading back a text without `&` changes nothing.
pub proof fn lemma_unescape_plain(s: Seq<char>)
    requires
        !s.contains('&'),
    ensures
        unescape_angles(s) == s,
{
    lemma_replace_absent(s, seq!['&', 'l', 't', ';'], seq!['<']);
    lemma_replace_absent(s, seq!['&', 'g', 't', ';'], seq!['>']);
}


/// Reading characters other than `\n` only extends the line being read.
proof fn lemma_lines_state_plain(a: Seq<char>, y: Seq<char>)
    requires
        !y.contains('\n'),
    ensures
        lines_state(a + y) == (lines_state(a).0, lines_state(a).1 + y),
    decreases y.len(),
{
    if y.len() == 0 {
        assert(a + y =~= a);
        assert(lines_state(a).1 + y =~= lines_state(a).1);
    } else {
        let yi = y.drop_last();
        assert(!yi.contains('\n')) by {
            if yi.contains('\n') {
                let k = choose|k: int| 0 <= k < yi.len() && yi[k] == '\n';
                assert(y[k] == '\n');
            }
        }
        assert(y.last() != '\n') by {
            assert(y.contains(y[y.len() - 1]));
        }
        lemma_lines_state_plain(a, yi);
        assert((a + y).drop_last() =~= a + yi);
        assert((a + y).last() == y.last());
        assert((lines_state(a).1 + yi).push(y.last()) =~= lines_state(a).1 + y);
    }
}

/// A line that `lines` gives back unchanged: no `\n` in it and no final `\r`.
pub open spec fn is_plain_line(l: Seq<char>) -> bool {
    !l.contains('\n') && !(l.len() > 0 && l.last() == '\r')
}

proof fn lemma_lines_state_of_join(ls: Seq<Seq<char>>)
    requires
        ls.len() > 0,
        forall|i: int| 0 <= i < ls.len() ==> is_plain_line(#[trigger] ls[i]),
    ensures
        lines_state(join(ls, seq!['\n'])) == (ls.drop_last(), ls.last()),
    decreases ls.len(),
{
    let nl = seq!['\n'];
    if ls.len() == 1 {
        lemma_lines_state_plain(Seq::empty(), ls[0]);
        assert(Seq::<char>::empty() + ls[0] =~= ls[0]);
        assert(Seq::<char>::empty() + ls[0] =~= ls[0]);
        assert(ls.drop_last() =~= Seq::<Seq<char>>::empty());
    } else {
        let init = ls.drop_last();
        assert forall|i: int| 0 <= i < init.len() implies is_plain_line(#[trigger] init[i]) by {
            assert(init[i] == ls[i]);
        }
        lemma_lines_state_of_join(init);
        let j = join(init, nl);
        assert(is_plain_line(ls[ls.len() - 1]));
        assert(is_plain_line(init[init.len() - 1]));
        assert((j + nl).drop_last() =~= j);
        assert(lines_state(j + nl) == (init.drop_last().push(init.last()), Seq::<char>::empty()));
        assert(init.drop_last().push(init.last()) =~= init);
        lemma_lines_state_plain(j + nl, ls.last());
        assert(Seq::<char>::empty() + ls.last() =~= ls.last());
    }
}

/// Joining plain lines with `\n` and splitting them again gives them back, when the last
/// one is not empty.
pub proof fn lemma_lines_of_join(ls: Seq<Seq<char>>)
    requires
        forall|i: int| 0 <= i < ls.len() ==> is_plain_line(#[trigger] ls[i]),
        ls.len() > 0 ==> ls.last().len() > 0,
    ensures
        lines(join(ls, seq!['\n'])) == ls,
{
    if ls.len() > 0 {
        lemma_lines_state_of_join(ls);
        assert(ls.drop_last().push(ls.last()) =~= ls);
    } else {
        assert(lines_state(Seq::<char>::empty()).1.len() == 0);
    }
}

proof fn lemma_join_lines_state(c: Seq<char>)
    requires
        !c.contains('\r'),
    ensures
        join(lines_state(c).0.push(lines_state(c).1), seq!['\n']) == c,
        forall|i: int| 0 <= i < lines_state(c).0.len() ==> is_plain_line(#[trigger] lines_state(c).0[i])
            && !lines_state(c).0[i].contains('\r'),
        is_plain_line(lines_state(c).1) && !lines_state(c).1.contains('\r'),
    decreases c.len(),
{
    let nl = seq!['\n'];
    if c.len() > 0 {
        let ci = c.drop_last();
        assert(!ci.contains('\r')) by {
            if ci.contains('\r') {
                let k = choose|k: int| 0 <= k < ci.len() && ci[k] == '\r';
                assert(c[k] == '\r');
            }
        }
        assert(c.last() != '\r') by {
            assert(c.contains(c[c.len() - 1]));
        }
        lemma_join_lines_state(ci);
        let (done, cur) = lines_state(ci);
        assert(ci =~= c.subrange(0, c.len() - 1));
        if c.last() == '\n' {
            assert(strip_cr(cur) == cur);
            let d2 = done.push(cur);
            assert(d2.push(Seq::<char>::empty()).drop_last() =~= d2);
            assert(join(d2, nl) + nl + Seq::<char>::empty() =~= c);
            assert forall|i: int| 0 <= i < d2.len() implies is_plain_line(#[trigger] d2[i])
                && !d2[i].contains('\r') by {
                if i < done.len() {
                    assert(d2[i] == done[i]);
                }
            }
        } else {
            let cur2 = cur.push(c.last());
            assert(!cur2.contains('\n') && !cur2.contains('\r')) by {
                if cur2.contains('\n') || cur2.contains('\r') {
                    let k = choose|k: int| 0 <= k < cur2.len() && (cur2[k] == '\n' || cur2[k] == '\r');
                    if k < cur.len() {
                        assert(cur[k] == cur2[k]);
                    }
                }
            }
            assert(done.push(cur2).drop_last() =~= done);
            assert(done.push(cur).drop_last() =~= done);
            if done.len() == 0 {
                assert(cur2 =~= c);
            } else {
                assert(join(done, nl) + nl + cur2 =~= (join(done, nl) + nl + cur).push(c.last()));
            }
        }
    }
}

/// Splitting a text without `\r` into lines and joining them with `\n` gives it back,
/// when it does not end with `\n`; its lines are plain and hold no `\r`.
pub proof fn lemma_join_of_lines(c: Seq<char>)
    requires
        !c.contains('\r'),
        c.len() == 0 || c.last() != '\n',
    ensures
        join(lines(c), seq!['\n']) == c,
        forall|i: int| 0 <= i < lines(c).len() ==> is_plain_line(#[trigger] lines(c)[i])
            && !lines(c)[i].contains('\r'),
{
    lemma_join_lines_state(c);
    let (done, cur) = lines_state(c);
    if c.len() > 0 {
        assert(c.drop_last() =~= c.subrange(0, c.len() - 1));
        assert(cur.len() > 0);
    }
    assert forall|i: int| 0 <= i < lines(c).len() implies is_plain_line(#[trigger] lines(c)[i])
        && !lines(c)[i].contains('\r') by {
        if i < done.len() {
            assert(lines(c)[i] == done[i]);
        }
    }
}


/// Escaping a concatenation escapes each part.
pub proof fn lemma_escape_concat(a: Seq<char>, b: Seq<char>)
    ensures
        escape_angles(a + b) == escape_angles(a) + escape_angles(b),
    decreases a.len(),
{
    if a.len() == 0 {
        assert(a + b =~= b);
        assert(escape_angles(a) + escape_angles(b) =~= escape_angles(b));
    } else {
        let rest = a.subrange(1, a.len() as int);
        lemma_escape_concat(rest, b);
        assert((a + b).subrange(1, (a + b).len() as int) =~= rest + b);
        assert((a + b)[0] == a[0]);
        assert(escape_char(a[0]) + (escape_angles(rest) + escape_angles(b)) =~= (escape_char(a[0])
            + escape_angles(rest)) + escape_angles(b));
    }
}

proof fn lemma_escape_single(c: char)
    ensures
        escape_angles(seq![c]) == escape_char(c),
{
    let s = seq![c];
    assert(s.subrange(1, 1) =~= Seq::<char>::empty());
    assert(escape_angles(Seq::<char>::empty()) == Seq::<char>::empty());
    assert(escape_angles(s) == escape_char(c) + escape_angles(s.subrange(1, 1)));
    assert(escape_char(c) + Seq::<char>::empty() =~= escape_char(c));
}

/// Replacing by a text that lacks `c` in a text that lacks `c` gives a text that lacks `c`.
proof fn lemma_replace_lacks(s: Seq<char>, pat: Seq<char>, rep: Seq<char>, c: char)
    requires
        !s.contains(c),
        !rep.contains(c),
    ensures
        !replace(s, pat, rep).contains(c),
    decreases s.len(),
{
    if s.len() > 0 {
        let r = replace(s, pat, rep);
        if 0 < pat.len() <= s.len() && s.subrange(0, pat.len() as int) == pat {
            let rest = s.subrange(pat.len() as int, s.len() as int);
            assert(!rest.contains(c)) by {
                if rest.contains(c) {
                    let k = choose|k: int| 0 <= k < rest.len() && rest[k] == c;
                    assert(s[pat.len() + k] == c);
                }
            }
            lemma_replace_lacks(rest, pat, rep, c);
            let t = replace(rest, pat, rep);
            assert(!(rep + t).contains(c)) by {
                if (rep + t).contains(c) {
                    let k = choose|k: int| 0 <= k < (rep + t).len() && (rep + t)[k] == c;
                    if k < rep.len() {
                        assert(rep[k] == c);
                    } else {
                        assert(t[k - rep.len()] == c);
                    }
                }
            }
        } else {
            let rest = s.subrange(1, s.len() as int);
            assert(!rest.contains(c)) by {
                if rest.contains(c) {
                    let k = choose|k: int| 0 <= k < rest.len() && rest[k] == c;
                    assert(s[1 + k] == c);
                }
            }
            lemma_replace_lacks(rest, pat, rep, c);
            let t = replace(rest, pat, rep);
            assert(s[0] != c) by {
                assert(s.contains(s[0]));
            }
            assert(!(seq![s[0]] + t).contains(c)) by {
                if (seq![s[0]] + t).contains(c) {
                    let k = choose|k: int| 0 <= k < (seq![s[0]] + t).len() && (seq![s[0]] + t)[k] == c;
                    if k > 0 {
                        assert(t[k - 1] == c);
                    }
                }
            }
        }
    }
}

/// Reading back the entity of `a` and writing it again as the entity gives the same
/// escape, in a text that does not hold `a` itself.
proof fn lemma_escape_replace(s: Seq<char>, ent: Seq<char>, a: char)
    requires
        ent == escape_char(a),
        a == '<' || a == '>',
        !s.contains(a),
    ensures
        escape_angles(replace(s, ent, seq![a])) == escape_angles(s),
    decreases s.len(),
{
    if s.len() > 0 {
        assert(ent.len() == 4);
        if 0 < ent.len() <= s.len() && s.subrange(0, ent.len() as int) == ent {
            let rest = s.subrange(4, s.len() as int);
            assert(!rest.contains(a)) by {
                if rest.contains(a) {
                    let k = choose|k: int| 0 <= k < rest.len() && rest[k] == a;
                    assert(s[4 + k] == a);
                }
            }
            lemma_escape_replace(rest, ent, a);
            lemma_escape_concat(seq![a], replace(rest, ent, seq![a]));
            lemma_escape_single(a);
            assert(s =~= ent + rest);
            lemma_escape_concat(ent, rest);
            assert(ent =~= seq![ent[0]] + (seq![ent[1]] + (seq![ent[2]] + seq![ent[3]])));
            lemma_escape_plain(ent);
        } else {
            let rest = s.subrange(1, s.len() as int);
            assert(!rest.contains(a)) by {
                if rest.contains(a) {
                    let k = choose|k: int| 0 <= k < rest.len() && rest[k] == a;
                    assert(s[1 + k] == a);
                }
            }
            lemma_escape_replace(rest, ent, a);
            lemma_escape_concat(seq![s[0]], replace(rest, ent, seq![a]));
            lemma_escape_single(s[0]);
        }
    }
}

/// Reading back a text without angle brackets and escaping it again gives it back,
/// whatever `&` it holds.
pub proof fn lemma_escape_inverts_unescape(s: Seq<char>)
    requires
        !s.contains('<'),
        !s.contains('>'),
    ensures
        escape_angles(unescape_angles(s)) == s,
{
    let lt = seq!['&', 'l', 't', ';'];
    let gt = seq!['&', 'g', 't', ';'];
    let t = replace(s, lt, seq!['<']);
    assert(!seq!['<'].contains('>')) by {
        if seq!['<'].contains('>') {
            let k = choose|k: int| 0 <= k < 1 && seq!['<'][k] == '>';
        }
    }
    lemma_replace_lacks(s, lt, seq!['<'], '>');
    lemma_escape_replace(t, gt, '>');
    lemma_escape_replace(s, lt, '<');
    lemma_escape_plain(s);
}


/// A text whose escape starts with a character other than `&` starts with that character.
proof fn lemma_escape_peel(s: Seq<char>, c: char, e: Seq<char>)
    requires
        escape_angles(s) == seq![c] + e,
        c != '&',
    ensures
        s.len() > 0,
        s[0] == c,
        escape_angles(s.subrange(1, s.len() as int)) == e,
{
    if s.len() == 0 {
        assert((seq![c] + e).len() > 0);
    }
    let rest = s.subrange(1, s.len() as int);
    assert(escape_angles(s) == escape_char(s[0]) + escape_angles(rest));
    assert((seq![c] + e)[0] == c);
    if s[0] == '<' || s[0] == '>' {
        assert(escape_angles(s)[0] == '&');
    }
    assert(escape_char(s[0]) == seq![s[0]]);
    assert(escape_angles(rest) =~= escape_angles(s).subrange(1, escape_angles(s).len() as int));
    assert(e =~= (seq![c] + e).subrange(1, (seq![c] + e).len() as int));
}

/// A text that escapes to the same text as one without `&` reads back to it: writing some
/// of its `<` and `>` as entities is undone by `unescape_angles`.
pub proof fn lemma_unescape_same_escape(x: Seq<char>, m: Seq<char>)
    requires
        escape_angles(x) == escape_angles(m),
        !m.contains('&'),
    ensures
        unescape_angles(x) == m,
    decreases x.len(),
{
    let lt = seq!['&', 'l', 't', ';'];
    let gt = seq!['&', 'g', 't', ';'];
    let open = seq!['<'];
    let close = seq!['>'];
    if x.len() == 0 {
        if m.len() > 0 {
            assert(escape_angles(m) == escape_char(m[0]) + escape_angles(
                m.subrange(1, m.len() as int),
            ));
        }
        assert(m =~= Seq::<char>::empty());
    } else {
        let c = x[0];
        let xr = x.subrange(1, x.len() as int);
        assert(x =~= seq![c] + xr);
        assert(escape_angles(x) == escape_char(c) + escape_angles(xr));
        assert(m.len() > 0) by {
            if m.len() == 0 {
                assert(escape_angles(x).len() > 0);
            }
        }
        let d = m[0];
        let mr = m.subrange(1, m.len() as int);
        assert(m =~= seq![d] + mr);
        assert(d != '&') by {
            assert(m.contains(m[0]));
        }
        assert(!mr.contains('&')) by {
            if mr.contains('&') {
                let k = choose|k: int| 0 <= k < mr.len() && mr[k] == '&';
                assert(m[k + 1] == '&');
            }
        }
        assert(escape_angles(m) == escape_char(d) + escape_angles(mr));
        let em = escape_angles(m);
        if c != '<' && c != '>' && c != '&' {
            assert(escape_angles(x) =~= seq![c] + escape_angles(xr));
            if d == '<' || d == '>' {
                assert(em[0] == '&');
            }
            assert(em =~= seq![d] + escape_angles(mr));
            assert(em[0] == d);
            assert(escape_angles(xr) =~= em.subrange(1, em.len() as int));
            assert(escape_angles(mr) =~= em.subrange(1, em.len() as int));
            lemma_unescape_same_escape(xr, mr);
            lemma_replace_skip(c, xr, lt, open);
            lemma_replace_skip(c, replace(xr, lt, open), gt, close);
        } else if c == '<' || c == '>' {
            let ent = escape_char(c);
            assert(em[0] == '&' && em[1] == ent[1]);
            assert(d == c) by {
                if d != '<' && d != '>' {
                    assert(em[0] == d);
                }
            }
            assert(escape_angles(xr) =~= em.subrange(4, em.len() as int));
            assert(escape_angles(mr) =~= em.subrange(4, em.len() as int));
            lemma_unescape_same_escape(xr, mr);
            lemma_replace_skip(c, xr, lt, open);
            lemma_replace_skip(c, replace(xr, lt, open), gt, close);
        } else {
            assert(escape_angles(x) =~= seq!['&'] + escape_angles(xr));
            assert(d == '<' || d == '>') by {
                if d != '<' && d != '>' {
                    assert(em[0] == d);
                }
            }
            let ent = escape_char(d);
            let emr = escape_angles(mr);
            assert(em =~= ent + emr);
            assert(ent =~= seq!['&', ent[1], 't', ';']);
            assert(escape_angles(xr) =~= em.subrange(1, em.len() as int));
            assert(escape_angles(xr) =~= seq![ent[1]] + (seq!['t'] + (seq![';'] + emr)));
            lemma_escape_peel(xr, ent[1], seq!['t'] + (seq![';'] + emr));
            let x2 = xr.subrange(1, xr.len() as int);
            lemma_escape_peel(x2, 't', seq![';'] + emr);
            let x3 = x2.subrange(1, x2.len() as int);
            lemma_escape_peel(x3, ';', emr);
            let x4 = x3.subrange(1, x3.len() as int);
            lemma_unescape_same_escape(x4, mr);
            assert(x =~= ent + x4);
            if d == '<' {
                lemma_replace_hit(lt, x4, open);
                lemma_replace_skip('<', replace(x4, lt, open), gt, close);
            } else {
                let t = gt + x4;
                assert(t.subrange(1, t.len() as int) =~= seq!['g'] + (seq!['t'] + (seq![';']
                    + x4)));
                assert(t.subrange(0, 4)[1] == 'g');
                lemma_replace_skip(';', x4, lt, open);
                lemma_replace_skip('t', seq![';'] + x4, lt, open);
                lemma_replace_skip('g', seq!['t'] + (seq![';'] + x4), lt, open);
                assert(replace(t, lt, open) == seq!['&'] + replace(
                    t.subrange(1, t.len() as int),
                    lt,
                    open,
                ));
                assert(replace(t, lt, open) =~= gt + replace(x4, lt, open));
                lemma_replace_hit(gt, replace(x4, lt, open), close);
            }
        }
    }
}


/// Replacing in a text that starts with a part lacking the pattern's first character
/// keeps that part.
proof fn lemma_replace_plain_prefix(a: Seq<char>, b: Seq<char>, pat: Seq<char>, rep: Seq<char>)
    requires
        pat.len() > 0,
        !a.contains(pat[0]),
    ensures
        replace(a + b, pat, rep) == a + replace(b, pat, rep),
    decreases a.len(),
{
    if a.len() > 0 {
        let rest = a.subrange(1, a.len() as int);
        assert(!rest.contains(pat[0])) by {
            if rest.contains(pat[0]) {
                let k = choose|k: int| 0 <= k < rest.len() && rest[k] == pat[0];
                assert(a[k + 1] == pat[0]);
            }
        }
        assert(a[0] != pat[0]) by {
            assert(a.contains(a[0]));
        }
        lemma_replace_plain_prefix(rest, b, pat, rep);
        assert(a + b =~= seq![a[0]] + (rest + b));
        lemma_replace_skip(a[0], rest + b, pat, rep);
        assert(a =~= seq![a[0]] + rest);
    } else {
        assert(a + b =~= b);
        assert(a + replace(b, pat, rep) =~= replace(b, pat, rep));
    }
}

/// A text without `&` between `&lt;` and `&gt;` reads back to the text between `<` and `>`.
pub proof fn lemma_unescape_wrapped(y: Seq<char>)
    requires
        !y.contains('&'),
    ensures
        unescape_angles(seq!['&', 'l', 't', ';'] + y + seq!['&', 'g', 't', ';']) == seq!['<'] + y
            + seq!['>'],
{
    let lt = seq!['&', 'l', 't', ';'];
    let gt = seq!['&', 'g', 't', ';'];
    let open = seq!['<'];
    let close = seq!['>'];
    let m = lt + y + gt;
    assert(m =~= lt + (y + gt));
    lemma_replace_hit(lt, y + gt, open);
    lemma_replace_plain_prefix(y, gt, lt, open);
    assert(gt.subrange(0, 4) =~= gt);
    assert(gt[1] != lt[1]);
    let tail = gt.subrange(1, 4);
    assert(!tail.contains('&')) by {
        if tail.contains('&') {
            let k = choose|k: int| 0 <= k < tail.len() && tail[k] == '&';
        }
    }
    lemma_replace_absent(tail, lt, open);
    assert(replace(gt, lt, open) == seq![gt[0]] + replace(tail, lt, open));
    assert(replace(gt, lt, open) =~= gt);
    let first = open + y + gt;
    assert(replace(m, lt, open) =~= first);
    let oy = open + y;
    assert(!oy.contains('&')) by {
        if oy.contains('&') {
            let k = choose|k: int| 0 <= k < oy.len() && oy[k] == '&';
            if k > 0 {
                assert(y[k - 1] == '&');
            }
        }
    }
    lemma_replace_plain_prefix(oy, gt, gt, close);
    lemma_replace_hit(gt, Seq::<char>::empty(), close);
    assert(gt + Seq::<char>::empty() =~= gt);
    assert(replace(Seq::<char>::empty(), gt, close) =~= Seq::<char>::empty());
    assert(close + Seq::<char>::empty() =~= close);
}


/// The number that a run of decimal digits stands for.
pub open spec fn digits_value(s: Seq<char>) -> int
    decreases s.len(),
{
    if s.len() == 0 {
        0
    } else {
        digits_value(s.drop_last()) * 10 + (s.last() as int - '0' as int)
    }
}

/// The digit of `d` is the character `d` places after `0`.
proof fn lemma_digit_value(d: nat)
    requires
        d < 10,
    ensures
        '0' <= digit(d) <= '9',
        digit(d) as int - '0' as int == d,
{
    if d == 0 {} else if d == 1 {} else if d == 2 {} else if d == 3 {} else if d == 4 {}
    else if d == 5 {} else if d == 6 {} else if d == 7 {} else if d == 8 {} else {}
}

/// Writing a number in decimal gives decimal digits that read back to it, with no
/// leading zero unless the number is zero.
pub proof fn lemma_decimal_reads_back(n: nat)
    ensures
        decimal(n).len() > 0,
        forall|i: int| 0 <= i < decimal(n).len() ==> '0' <= #[trigger] decimal(n)[i] <= '9',
        digits_value(decimal(n)) == n,
        decimal(n).len() > 1 ==> decimal(n)[0] != '0',
        n >= 10 ==> decimal(n).len() > 1,
    decreases n,
{
    if n < 10 {
        lemma_digit_value(n);
        assert(seq![digit(n)].drop_last() =~= Seq::<char>::empty());
        assert(digits_value(Seq::<char>::empty()) == 0);
        assert(digits_value(decimal(n)) == 0 * 10 + (digit(n) as int - '0' as int));
    } else {
        lemma_decimal_reads_back(n / 10);
        lemma_digit_value(n % 10);
        let h = decimal(n / 10);
        let s = decimal(n);
        assert(s == h.push(digit(n % 10)));
        assert(s.drop_last() =~= h);
        assert forall|i: int| 0 <= i < s.len() implies '0' <= #[trigger] s[i] <= '9' by {
            if i < h.len() {
                assert(s[i] == h[i]);
            }
        }
        assert((n / 10) * 10 + n % 10 == n) by (nonlinear_arith);
        assert(s.last() == digit(n % 10));
        assert(digits_value(s) == digits_value(h) * 10 + (digit(n % 10) as int - '0' as int));
        if h.len() == 1 {
            assert(n / 10 >= 1 && n / 10 < 10);
            assert(h[0] == digit(n / 10));
            lemma_digit_value(n / 10);
        }
        assert(s[0] == h[0]);
    }
}

} // verus!

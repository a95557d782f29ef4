use vstd::prelude::*;

verus! {

/// Text is tokenized in chunks of at most this many characters.
pub const MAX_CHUNK_SIZE: usize = 1024;

/// A chunk ends at the first split point after this many characters.
pub const CHUNK_SIZE: usize = 500;

/// Whether `c` has the Unicode White_Space property.
pub open spec fn is_white_space(c: char) -> bool {
    let u = c as u32;
    ||| 0x09 <= u <= 0x0D
    ||| u == 0x20
    ||| u == 0x85
    ||| u == 0xA0
    ||| u == 0x1680
    ||| 0x2000 <= u <= 0x200A
    ||| u == 0x2028
    ||| u == 0x2029
    ||| u == 0x202F
    ||| u == 0x205F
    ||| u == 0x3000
}

/// Whether `c` has the Unicode White_Space property.
pub fn white_space(c: char) -> (b: bool)
    ensures
        b == is_white_space(c),
{
    let u = c as u32;
    (0x09 <= u && u <= 0x0D) || u == 0x20 || u == 0x85 || u == 0xA0 || u == 0x1680 || (0x2000
        <= u && u <= 0x200A) || u == 0x2028 || u == 0x2029 || u == 0x202F || u == 0x205F || u
        == 0x3000
}

/// The code points that Unicode lists with the White_Space property (PropList.txt).
pub open spec fn unicode_white_space() -> Set<u32> {
    set![
        0x0009u32, 0x000Au32, 0x000Bu32, 0x000Cu32, 0x000Du32, 0x0020u32, 0x0085u32, 0x00A0u32,
        0x1680u32, 0x2000u32, 0x2001u32, 0x2002u32, 0x2003u32, 0x2004u32, 0x2005u32, 0x2006u32,
        0x2007u32, 0x2008u32, 0x2009u32, 0x200Au32, 0x2028u32, 0x2029u32, 0x202Fu32, 0x205Fu32,
        0x3000u32,
    ]
}

/// A character is white space exactly when Unicode lists it with the White_Space
/// property.
pub proof fn lemma_white_space_is_unicode(c: char)
    ensures
        is_white_space(c) <==> unicode_white_space().contains(c as u32),
{
}

/// `s[i..j]` is `s` without leading and trailing white space.
pub open spec fn trim_bounds(s: Seq<char>, i: int, j: int) -> bool {
    &&& 0 <= i <= j <= s.len()
    &&& forall|k: int| 0 <= k < i ==> is_white_space(#[trigger] s[k])
    &&& forall|k: int| j <= k < s.len() ==> is_white_space(#[trigger] s[k])
    &&& i < j ==> !is_white_space(s[i]) && !is_white_space(s[j - 1])
}

/// `t` is `s` without leading and trailing white space.
pub open spec fn is_trim_of(s: Seq<char>, t: Seq<char>) -> bool {
    exists|i: int, j: int| trim_bounds(s, i, j) && t == s.subrange(i, j)
}

/// The trimmed form of a text is the text without the leading and trailing characters
/// that Unicode lists as white space, and it neither starts nor ends with one.
pub proof fn lemma_trim_is_unicode_trim(s: Seq<char>, t: Seq<char>)
    requires
        is_trim_of(s, t),
    ensures
        exists|i: int, j: int|
            #![trigger s.subrange(i, j)]
            {
                &&& 0 <= i <= j <= s.len()
                &&& t == s.subrange(i, j)
                &&& forall|k: int| 0 <= k < i ==> unicode_white_space().contains(#[trigger] s[k] as u32)
                &&& forall|k: int| j <= k < s.len() ==> unicode_white_space().contains(#[trigger] s[k] as u32)
                &&& t.len() > 0 ==> !unicode_white_space().contains(t[0] as u32) && !unicode_white_space().contains(
                    t[t.len() - 1] as u32,
                )
            },
{
    let (i, j) = choose|i: int, j: int| trim_bounds(s, i, j) && t == s.subrange(i, j);
    assert forall|k: int| 0 <= k < i implies unicode_white_space().contains(#[trigger] s[k] as u32) by {
        lemma_white_space_is_unicode(s[k]);
    }
    assert forall|k: int| j <= k < s.len() implies unicode_white_space().contains(#[trigger] s[k] as u32) by {
        lemma_white_space_is_unicode(s[k]);
    }
    if t.len() > 0 {
        lemma_white_space_is_unicode(s[i]);
        lemma_white_space_is_unicode(s[j - 1]);
        assert(t[0] == s[i]);
        assert(t[t.len() - 1] == s[j - 1]);
    }
}

/// A text has one trimmed form.
pub proof fn lemma_trim_unique(s: Seq<char>, t1: Seq<char>, t2: Seq<char>)
    requires
        is_trim_of(s, t1),
        is_trim_of(s, t2),
    ensures
        t1 == t2,
{
    let (i1, j1) = choose|i: int, j: int| trim_bounds(s, i, j) && t1 == s.subrange(i, j);
    let (i2, j2) = choose|i: int, j: int| trim_bounds(s, i, j) && t2 == s.subrange(i, j);
    if i1 < j1 && i2 < j2 {
        if i1 < i2 {
            assert(is_white_space(s[i1]));
        }
        if i2 < i1 {
            assert(is_white_space(s[i2]));
        }
        if j1 < j2 {
            assert(is_white_space(s[j2 - 1]));
        }
        if j2 < j1 {
            assert(is_white_space(s[j1 - 1]));
        }
    } else if i1 < j1 {
        if i1 < i2 {
            assert(is_white_space(s[i1]));
        } else {
            assert(is_white_space(s[i1]));
        }
    } else if i2 < j2 {
        if i2 < i1 {
            assert(is_white_space(s[i2]));
        } else {
            assert(is_white_space(s[i2]));
        }
    } else {
        assert(t1 =~= t2);
    }
}

/// Where `s` starts and ends once leading and trailing white space is removed.
pub fn trim_range(s: &[char]) -> (r: (usize, usize))
    ensures
        trim_bounds(s@, r.0 as int, r.1 as int),
{
    let n = s.len();
    let mut i: usize = 0;
    while i < n && white_space(s[i])
        invariant
            i <= n,
            n == s.len(),
            forall|k: int| 0 <= k < i ==> is_white_space(#[trigger] s@[k]),
        decreases n - i,
    {
        i = i + 1;
    }
    let mut j: usize = n;
    while j > i && white_space(s[j - 1])
        invariant
            i <= j <= n,
            n == s.len(),
            forall|k: int| j <= k < n ==> is_white_space(#[trigger] s@[k]),
            i < n ==> !is_white_space(s@[i as int]),
        decreases j - i,
    {
        j = j - 1;
    }
    (i, j)
}

/// The characters of `s` without leading and trailing white space.
pub fn trimmed_chars(s: &str) -> (v: Vec<char>)
    ensures
        is_trim_of(s@, v@),
{
    let chars = crate::text::str_chars(s);
    let (i, j) = trim_range(chars.as_slice());
    let mut v: Vec<char> = Vec::new();
    let mut k: usize = i;
    while k < j
        invariant
            i <= k <= j <= chars.len(),
            v@ == chars@.subrange(i as int, k as int),
        decreases j - k,
    {
        v.push(chars[k]);
        k = k + 1;
        proof {
            assert(v@ =~= chars@.subrange(i as int, k as int));
        }
    }
    proof {
        assert(trim_bounds(s@, i as int, j as int));
    }
    v
}

/// Punctuation after which a chunk may end.
pub open spec fn is_punct_char(c: char) -> bool {
    c == '、' || c == '。' || c == ',' || c == '.' || c == '？' || c == '?' || c == '！' || c == '!'
}

/// `s` ends with `suffix`.
pub open spec fn ends_with(s: Seq<char>, suffix: Seq<char>) -> bool {
    suffix.len() <= s.len() && s.subrange(s.len() - suffix.len(), s.len() as int) == suffix
}

/// `s` ends with an empty line.
pub open spec fn ends_with_blank_line(s: Seq<char>) -> bool {
    ends_with(s, seq!['\n', '\n']) || ends_with(s, seq!['\r', '\n', '\r', '\n'])
}

/// A chunk may end after `s`: it ends with punctuation or an empty line.
pub open spec fn splittable(s: Seq<char>) -> bool {
    s.len() > 0 && (is_punct_char(s.last()) || ends_with_blank_line(s))
}

/// Whether a chunk ends after `m` characters of `t`, the first `m - 1` having given
/// no end.
pub open spec fn chunk_ends_at(t: Seq<char>, m: int) -> bool {
    m >= MAX_CHUNK_SIZE || (m >= CHUNK_SIZE && (m >= t.len() || splittable(t.take(m))))
}

/// Length of the chunk that starts `t` when the first `m - 1` characters gave no end.
pub open spec fn chunk_len_from(t: Seq<char>, m: int) -> int
    recommends
        m >= 1,
    decreases t.len() + 1 - m,
{
    if m > t.len() {
        t.len() as int
    } else if chunk_ends_at(t, m) {
        m
    } else {
        chunk_len_from(t, m + 1)
    }
}

/// Length of the chunk that starts `t`: the text up to the first split point from
/// the `CHUNK_SIZE`-th character on, and at most `MAX_CHUNK_SIZE` characters.
pub open spec fn chunk_len(t: Seq<char>) -> int {
    chunk_len_from(t, 1)
}

/// A chunk is never empty and never longer than `MAX_CHUNK_SIZE` characters, nor
/// than the text.
pub proof fn lemma_chunk_len_bounds(t: Seq<char>, m: int)
    requires
        1 <= m,
        m <= t.len() + 1,
        m <= MAX_CHUNK_SIZE,
    ensures
        t.len() > 0 ==> 1 <= chunk_len_from(t, m),
        chunk_len_from(t, m) <= t.len(),
        chunk_len_from(t, m) <= MAX_CHUNK_SIZE,
        m <= t.len() ==> m <= chunk_len_from(t, m),
    decreases t.len() + 1 - m,
{
    if m <= t.len() && !chunk_ends_at(t, m) {
        lemma_chunk_len_bounds(t, m + 1);
    }
}

/// The first `m` characters of `t` may close a chunk: the `m`-th is one of
/// `、。,.？?！!`, or they end with an empty line, `\n\n` or `\r\n\r\n`.
pub open spec fn split_point(t: Seq<char>, m: int) -> bool {
    let c = t[m - 1];
    ||| c == '、' || c == '。' || c == ',' || c == '.' || c == '？' || c == '?' || c == '！' || c == '!'
    ||| (m >= 2 && t[m - 2] == '\n' && c == '\n')
    ||| (m >= 4 && t[m - 4] == '\r' && t[m - 3] == '\n' && t[m - 2] == '\r' && c == '\n')
}

proof fn lemma_splittable_is_split_point(t: Seq<char>, m: int)
    requires
        1 <= m <= t.len(),
    ensures
        splittable(t.take(m)) <==> split_point(t, m),
{
    let s = t.take(m);
    assert(s.last() == t[m - 1]);
    if m >= 2 {
        let w = s.subrange(m - 2, m);
        assert(w[0] == t[m - 2] && w[1] == t[m - 1]);
        if t[m - 2] == '\n' && t[m - 1] == '\n' {
            assert(w =~= seq!['\n', '\n']);
        } else if w == seq!['\n', '\n'] {
            assert(w[0] == '\n' && w[1] == '\n');
        }
    }
    if m >= 4 {
        let w = s.subrange(m - 4, m);
        assert(w[0] == t[m - 4] && w[1] == t[m - 3] && w[2] == t[m - 2] && w[3] == t[m - 1]);
        if t[m - 4] == '\r' && t[m - 3] == '\n' && t[m - 2] == '\r' && t[m - 1] == '\n' {
            assert(w =~= seq!['\r', '\n', '\r', '\n']);
        } else if w == seq!['\r', '\n', '\r', '\n'] {
            assert(w[0] == '\r' && w[1] == '\n' && w[2] == '\r' && w[3] == '\n');
        }
    }
}

proof fn lemma_chunk_len_from_first_split(t: Seq<char>, m: int)
    requires
        1 <= m <= t.len() + 1,
        m <= MAX_CHUNK_SIZE,
    ensures
        forall|k: int| m <= k < chunk_len_from(t, m) && CHUNK_SIZE <= k ==> !#[trigger] split_point(t, k),
        chunk_len_from(t, m) < t.len() ==> chunk_len_from(t, m) == MAX_CHUNK_SIZE || (chunk_len_from(t, m)
            >= CHUNK_SIZE && split_point(t, chunk_len_from(t, m))),
    decreases t.len() + 1 - m,
{
    if m <= t.len() {
        if chunk_ends_at(t, m) {
            if m < t.len() && m < MAX_CHUNK_SIZE {
                lemma_splittable_is_split_point(t, m);
            }
        } else {
            lemma_chunk_len_from_first_split(t, m + 1);
            if m >= CHUNK_SIZE {
                lemma_splittable_is_split_point(t, m);
            }
        }
    }
}

/// Where a chunk ends: it is never empty nor longer than `MAX_CHUNK_SIZE` characters
/// or the text; from its `CHUNK_SIZE`-th character on it holds no split point before
/// its last character; and unless it takes the rest of the text, it ends at the cap
/// or right after a split point at or beyond `CHUNK_SIZE` characters.
pub proof fn lemma_chunk_ends_at_first_split(t: Seq<char>)
    ensures
        t.len() > 0 ==> 1 <= chunk_len(t),
        chunk_len(t) <= t.len(),
        chunk_len(t) <= MAX_CHUNK_SIZE,
        forall|k: int| CHUNK_SIZE <= k < chunk_len(t) ==> !#[trigger] split_point(t, k),
        chunk_len(t) < t.len() ==> chunk_len(t) == MAX_CHUNK_SIZE || (chunk_len(t) >= CHUNK_SIZE
            && split_point(t, chunk_len(t))),
{
    lemma_chunk_len_bounds(t, 1);
    lemma_chunk_len_from_first_split(t, 1);
}

/// Whether `c` is punctuation after which a chunk may end.
pub fn punct(c: char) -> (b: bool)
    ensures
        b == is_punct_char(c),
{
    c == '、' || c == '。' || c == ',' || c == '.' || c == '？' || c == '?' || c == '！' || c == '!'
}

/// Whether `s[start..start + m]` ends with an empty line.
pub fn blank_line_at(s: &[char], start: usize, m: usize) -> (b: bool)
    requires
        start + m <= s.len(),
    ensures
        b == ends_with_blank_line(s@.subrange(start as int, start + m)),
{
    let t = Ghost(s@.subrange(start as int, start + m));
    let e = start + m;
    let two = m >= 2 && s[e - 2] == '\n' && s[e - 1] == '\n';
    let four = m >= 4 && s[e - 4] == '\r' && s[e - 3] == '\n' && s[e - 2] == '\r' && s[e - 1]
        == '\n';
    proof {
        if m >= 2 {
            let w = t@.subrange(t@.len() - 2, t@.len() as int);
            assert(w[0] == s@[e - 2] && w[1] == s@[e - 1]);
            if two {
                assert(w =~= seq!['\n', '\n']);
            } else {
                assert(w != seq!['\n', '\n']) by {
                    if w == seq!['\n', '\n'] {
                        assert(w[0] == '\n' && w[1] == '\n');
                    }
                }
            }
        }
        if m >= 4 {
            let w = t@.subrange(t@.len() - 4, t@.len() as int);
            assert(w[0] == s@[e - 4] && w[1] == s@[e - 3] && w[2] == s@[e - 2] && w[3] == s@[e - 1]);
            if four {
                assert(w =~= seq!['\r', '\n', '\r', '\n']);
            } else {
                assert(w != seq!['\r', '\n', '\r', '\n']) by {
                    if w == seq!['\r', '\n', '\r', '\n'] {
                        assert(w[0] == '\r' && w[1] == '\n' && w[2] == '\r' && w[3] == '\n');
                    }
                }
            }
        }
    }
    two || four
}

/// Whether a chunk may end after `s[start..start + m]`.
pub fn splittable_at(s: &[char], start: usize, m: usize) -> (b: bool)
    requires
        start + m <= s.len(),
    ensures
        b == splittable(s@.subrange(start as int, start + m)),
{
    if m == 0 {
        false
    } else {
        punct(s[start + m - 1]) || blank_line_at(s, start, m)
    }
}

/// Length of the chunk that starts at `start` in `text`.
pub fn chunk_len_at(text: &[char], start: usize) -> (n: usize)
    requires
        start <= text.len(),
    ensures
        n == chunk_len(text@.skip(start as int)),
        start < text.len() ==> 1 <= n,
        n <= text.len() - start,
        n <= MAX_CHUNK_SIZE,
{
    let ghost t = text@.skip(start as int);
    let len = text.len() - start;
    proof {
        lemma_chunk_len_bounds(t, 1);
    }
    let mut m: usize = 1;
    while m <= len
        invariant
            1 <= m <= len + 1,
            m <= MAX_CHUNK_SIZE,
            len == t.len(),
            start + len == text.len(),
            t == text@.skip(start as int),
            chunk_len_from(t, 1) == chunk_len_from(t, m as int),
        decreases len + 1 - m,
    {
        if m >= MAX_CHUNK_SIZE {
            return m;
        }
        if m >= CHUNK_SIZE {
            let split = if m >= len {
                true
            } else {
                proof {
                    assert(t.take(m as int) =~= text@.subrange(start as int, start + m));
                }
                splittable_at(text, start, m)
            };
            if split {
                return m;
            }
        }
        m = m + 1;
    }
    len
}

} // verus!

//! Character-level text utilities: case folding, substring search, string
//! equality, and comma-separated list parsing.

use vstd::prelude::*;

verus! {

/// The case-folded form of a character sequence, as Unicode lowercasing
/// produces it. It depends on the characters alone.
pub uninterp spec fn lower_of(s: Seq<char>) -> Seq<char>;

/// Relies on `str::to_lowercase`: the Unicode lowercase mapping of the text,
/// a function of the characters alone.
#[verifier::external_body]
pub(crate) fn lowercase(s: &str) -> (r: String)
    ensures
        r@ == lower_of(s@),
{
    s.to_lowercase()
}

/// The characters of `s`, one vector element per character.
pub fn chars_vec(s: &str) -> (r: Vec<char>)
    ensures
        r@ == s@,
{
    let n = s.unicode_len();
    let mut r: Vec<char> = Vec::new();
    let mut i: usize = 0;
    while i < n
        invariant
            n == s@.len(),
            i <= n,
            r@ == s@.take(i as int),
        decreases n - i,
    {
        r.push(s.get_char(i));
        proof {
            assert(r@ =~= s@.take(i + 1));
        }
        i = i + 1;
    }
    proof {
        assert(s@.take(n as int) =~= s@);
    }
    r
}

/// `needle` occurs in `hay` starting at position `i`.
pub open spec fn matches_at(hay: Seq<char>, needle: Seq<char>, i: int) -> bool {
    0 <= i && i + needle.len() <= hay.len() && hay.subrange(i, i + needle.len() as int)
        == needle
}

/// `needle` occurs somewhere in `hay` as a contiguous run of characters.
pub open spec fn contains_sub(hay: Seq<char>, needle: Seq<char>) -> bool {
    exists|i: int| matches_at(hay, needle, i)
}

fn matches_at_exec(hay: &Vec<char>, needle: &Vec<char>, i: usize) -> (r: bool)
    requires
        i + needle@.len() <= hay@.len(),
    ensures
        r == matches_at(hay@, needle@, i as int),
{
    let n = hay.len();
    let m = needle.len();
    let mut j: usize = 0;
    while j < m
        invariant
            n == hay@.len(),
            m == needle@.len(),
            i + m <= n,
            j <= m,
            forall|k: int| 0 <= k < j ==> hay@[i + k] == needle@[k],
        decreases m - j,
    {
        if hay[i + j] != needle[j] {
            proof {
                assert(hay@.subrange(i as int, i + needle@.len() as int)[j as int]
                    == hay@[i + j]);
            }
            return false;
        }
        j = j + 1;
    }
    proof {
        assert(hay@.subrange(i as int, i + needle@.len() as int) =~= needle@);
    }
    true
}

/// Whether `needle` occurs in `hay` as a contiguous run of characters.
pub fn contains_chars(hay: &Vec<char>, needle: &Vec<char>) -> (r: bool)
    ensures
        r == contains_sub(hay@, needle@),
{
    let n = hay.len();
    let m = needle.len();
    if m > n {
        proof {
            assert(forall|i: int| !matches_at(hay@, needle@, i));
        }
        return false;
    }
    if m == 0 {
        proof {
            assert(hay@.subrange(0, 0) =~= needle@);
            assert(matches_at(hay@, needle@, 0));
        }
        return true;
    }
    let mut i: usize = 0;
    while i <= n - m
        invariant
            n == hay@.len(),
            m == needle@.len(),
            0 < m <= n,
            i <= n - m + 1,
            forall|k: int| 0 <= k < i ==> !matches_at(hay@, needle@, k),
        decreases n - m + 1 - i,
    {
        if matches_at_exec(hay, needle, i) {
            return true;
        }
        i = i + 1;
    }
    proof {
        assert(forall|k: int| k > n - m ==> !matches_at(hay@, needle@, k));
    }
    false
}

/// ASCII whitespace, as trimmed from the ends of a list item.
pub open spec fn is_space(c: char) -> bool {
    c == ' ' || c == '\t' || c == '\n' || c == '\r'
}

/// How many whitespace characters `s` starts with.
pub open spec fn leading_spaces(s: Seq<char>) -> nat
    decreases s.len(),
{
    if s.len() == 0 {
        0
    } else if !is_space(s[0]) {
        0
    } else {
        1 + leading_spaces(s.drop_first())
    }
}

/// How many whitespace characters `s` ends with.
pub open spec fn trailing_spaces(s: Seq<char>) -> nat
    decreases s.len(),
{
    if s.len() == 0 {
        0
    } else if !is_space(s.last()) {
        0
    } else {
        1 + trailing_spaces(s.drop_last())
    }
}

/// `s` without its leading and trailing whitespace.
pub open spec fn trim_of(s: Seq<char>) -> Seq<char> {
    if leading_spaces(s) == s.len() {
        Seq::empty()
    } else {
        s.subrange(leading_spaces(s) as int, s.len() - trailing_spaces(s))
    }
}

proof fn lemma_leading_spaces(s: Seq<char>)
    ensures
        leading_spaces(s) <= s.len(),
        forall|k: int| 0 <= k < leading_spaces(s) ==> is_space(s[k]),
        leading_spaces(s) < s.len() ==> !is_space(s[leading_spaces(s) as int]),
    decreases s.len(),
{
    if s.len() > 0 && is_space(s[0]) {
        lemma_leading_spaces(s.drop_first());
        assert forall|k: int| 0 <= k < leading_spaces(s) implies is_space(s[k]) by {
            if k >= 1 {
                assert(s.drop_first()[k - 1] == s[k]);
                assert(is_space(s.drop_first()[k - 1]));
            }
        }
    }
}

proof fn lemma_leading_spaces_unique(s: Seq<char>, j: int)
    requires
        0 <= j <= s.len(),
        forall|k: int| 0 <= k < j ==> is_space(s[k]),
        j < s.len() ==> !is_space(s[j]),
    ensures
        leading_spaces(s) == j,
    decreases s.len(),
{
    if s.len() == 0 {
    } else if j == 0 {
    } else {
        assert(is_space(s[0]));
        assert(forall|k: int| 0 <= k < j - 1 ==> s.drop_first()[k] == s[k + 1]);
        assert(j - 1 < s.drop_first().len() ==> s.drop_first()[j - 1] == s[j]);
        lemma_leading_spaces_unique(s.drop_first(), j - 1);
    }
}

proof fn lemma_trailing_spaces(s: Seq<char>)
    ensures
        trailing_spaces(s) <= s.len(),
        forall|k: int| s.len() - trailing_spaces(s) <= k < s.len() ==> is_space(s[k]),
        trailing_spaces(s) < s.len() ==> !is_space(
            s[s.len() - trailing_spaces(s) - 1],
        ),
    decreases s.len(),
{
    if s.len() > 0 && is_space(s.last()) {
        lemma_trailing_spaces(s.drop_last());
        assert(forall|k: int| 0 <= k < s.len() - 1 ==> s.drop_last()[k] == s[k]);
    }
}

proof fn lemma_trailing_spaces_unique(s: Seq<char>, j: int)
    requires
        0 <= j <= s.len(),
        forall|k: int| s.len() - j <= k < s.len() ==> is_space(s[k]),
        j < s.len() ==> !is_space(s[s.len() - j - 1]),
    ensures
        trailing_spaces(s) == j,
    decreases s.len(),
{
    if s.len() == 0 {
    } else if j == 0 {
    } else {
        assert(is_space(s.last()));
        assert(forall|k: int| 0 <= k < s.len() - 1 ==> s.drop_last()[k] == s[k]);
        lemma_trailing_spaces_unique(s.drop_last(), j - 1);
    }
}

/// The pieces of `s` between occurrences of the separator `c`, in order.
/// A string with no separator yields one piece; every separator starts a new
/// piece, so `n` separators yield `n + 1` pieces.
pub open spec fn split_on(s: Seq<char>, c: char) -> Seq<Seq<char>>
    decreases s.len(),
{
    if s.len() == 0 {
        seq![Seq::<char>::empty()]
    } else {
        let rest = split_on(s.drop_first(), c);
        if s[0] == c {
            seq![Seq::<char>::empty()] + rest
        } else {
            seq![seq![s[0]] + rest[0]] + rest.drop_first()
        }
    }
}

pub(crate) proof fn lemma_split_on_len(s: Seq<char>, c: char)
    ensures
        split_on(s, c).len() >= 1,
    decreases s.len(),
{
    if s.len() > 0 {
        lemma_split_on_len(s.drop_first(), c);
    }
}

pub(crate) proof fn lemma_split_on_push(s: Seq<char>, c: char, x: char)
    ensures
        x == c ==> split_on(s.push(x), c) == split_on(s, c).push(Seq::<char>::empty()),
        x != c ==> split_on(s.push(x), c) == split_on(s, c).update(
            split_on(s, c).len() - 1,
            split_on(s, c).last().push(x),
        ),
    decreases s.len(),
{
    lemma_split_on_len(s, c);
    let t = s.push(x);
    if s.len() == 0 {
        assert(t.drop_first() =~= Seq::<char>::empty());
        assert(split_on(Seq::<char>::empty(), c) == seq![Seq::<char>::empty()]);
        assert(split_on(t.drop_first(), c) == seq![Seq::<char>::empty()]);
        if x == c {
            assert(split_on(t, c) =~~= split_on(s, c).push(Seq::<char>::empty()));
        } else {
            assert(seq![t[0]] + split_on(t.drop_first(), c)[0] =~= split_on(s, c).last().push(
                x,
            ));
            assert(split_on(t, c) =~~= split_on(s, c).update(
                0,
                split_on(s, c).last().push(x),
            ));
        }
    } else {
        assert(t.drop_first() =~= s.drop_first().push(x));
        lemma_split_on_push(s.drop_first(), c, x);
        lemma_split_on_len(s.drop_first(), c);
        let rest = split_on(s.drop_first(), c);
        let restp = split_on(t.drop_first(), c);
        if x == c {
            assert(restp == rest.push(Seq::<char>::empty()));
            if s[0] == c {
                assert(split_on(t, c) =~~= split_on(s, c).push(Seq::<char>::empty()));
            } else {
                assert(restp[0] == rest[0]);
                assert(restp.drop_first() =~~= rest.drop_first().push(
                    Seq::<char>::empty(),
                ));
                assert(split_on(t, c) =~~= split_on(s, c).push(Seq::<char>::empty()));
            }
        } else {
            assert(restp == rest.update(rest.len() - 1, rest.last().push(x)));
            if s[0] == c {
                assert(split_on(s, c).last() == rest.last());
                assert(split_on(t, c) =~~= split_on(s, c).update(
                    split_on(s, c).len() - 1,
                    split_on(s, c).last().push(x),
                ));
            } else {
                if rest.len() == 1 {
                    assert(restp[0] == rest[0].push(x));
                    assert(split_on(s, c).last() == seq![s[0]] + rest[0]);
                    assert(seq![t[0]] + restp[0] =~= (seq![s[0]] + rest[0]).push(x));
                    assert(split_on(t, c) =~~= split_on(s, c).update(
                        split_on(s, c).len() - 1,
                        split_on(s, c).last().push(x),
                    ));
                } else {
                    assert(restp[0] == rest[0]);
                    assert(restp.drop_first() =~~= rest.drop_first().update(
                        rest.len() - 2,
                        rest.last().push(x),
                    ));
                    assert(split_on(s, c).last() == rest.last());
                    assert(split_on(t, c) =~~= split_on(s, c).update(
                        split_on(s, c).len() - 1,
                        split_on(s, c).last().push(x),
                    ));
                }
            }
        }
    }
}

fn is_space_exec(c: char) -> (r: bool)
    ensures
        r == is_space(c),
{
    c == ' ' || c == '\t' || c == '\n' || c == '\r'
}

/// The piece of `s` between character positions `a` and `b`, without its
/// leading and trailing whitespace.
fn trim_substring(s: &str, a: usize, b: usize) -> (r: String)
    requires
        a <= b <= s@.len(),
    ensures
        r@ == trim_of(s@.subrange(a as int, b as int)),
{
    let ghost piece = s@.subrange(a as int, b as int);
    let mut lo = a;
    while lo < b && is_space_exec(s.get_char(lo))
        invariant
            a <= lo <= b <= s@.len(),
            piece == s@.subrange(a as int, b as int),
            forall|k: int| a <= k < lo ==> is_space(s@[k]),
        decreases b - lo,
    {
        lo = lo + 1;
    }
    proof {
        assert(forall|k: int| 0 <= k < piece.len() ==> piece[k] == s@[a + k]);
    }
    if lo == b {
        proof {
            lemma_leading_spaces_unique(piece, b - a);
        }
        String::new()
    } else {
        proof {
            lemma_leading_spaces_unique(piece, lo - a);
        }
        let mut hi = b;
        while hi > lo && is_space_exec(s.get_char(hi - 1))
            invariant
                a <= lo <= hi <= b <= s@.len(),
                piece == s@.subrange(a as int, b as int),
                !is_space(s@[lo as int]),
                forall|k: int| hi <= k < b ==> is_space(s@[k]),
            decreases hi,
        {
            hi = hi - 1;
        }
        proof {
            assert(forall|k: int| 0 <= k < piece.len() ==> piece[k] == s@[a + k]);
            if hi == lo {
                assert(is_space(s@[lo as int]));
                assert(false);
            }
            lemma_trailing_spaces_unique(piece, b - hi);
            assert(trim_of(piece) =~= s@.subrange(lo as int, hi as int));
        }
        let sub = s.substring_char(lo, hi);
        sub.to_owned()
    }
}

/// Each piece trimmed, with the pieces that are then empty dropped, in order.
pub open spec fn trimmed_nonempty(pieces: Seq<Seq<char>>) -> Seq<Seq<char>>
    decreases pieces.len(),
{
    if pieces.len() == 0 {
        Seq::empty()
    } else {
        let rest = trimmed_nonempty(pieces.drop_last());
        let t = trim_of(pieces.last());
        if t.len() > 0 {
            rest.push(t)
        } else {
            rest
        }
    }
}

/// The items of a comma-separated list: the text between commas, trimmed,
/// empty items dropped.
pub open spec fn parse_items(s: Seq<char>) -> Seq<Seq<char>> {
    trimmed_nonempty(split_on(s, ','))
}

/// The views of a sequence of strings, element by element.
pub open spec fn str_views(s: Seq<String>) -> Seq<Seq<char>> {
    s.map_values(|t: String| t@)
}

fn parse_list(s: &str) -> (r: Vec<String>)
    ensures
        str_views(r@) == parse_items(s@),
{
    let n = s.unicode_len();
    let mut out: Vec<String> = Vec::new();
    let mut start: usize = 0;
    let mut i: usize = 0;
    proof {
        assert(s@.take(0) =~= Seq::<char>::empty());
        assert(s@.subrange(0, 0) =~= split_on(s@.take(0), ',').last());
    }
    while i < n
        invariant
            n == s@.len(),
            start <= i <= n,
            str_views(out@) == trimmed_nonempty(split_on(s@.take(i as int), ',').drop_last()),
            s@.subrange(start as int, i as int) == split_on(s@.take(i as int), ',').last(),
        decreases n - i,
    {
        let ghost sp = split_on(s@.take(i as int), ',');
        proof {
            lemma_split_on_len(s@.take(i as int), ',');
            assert(s@.take(i + 1) =~= s@.take(i as int).push(s@[i as int]));
            lemma_split_on_push(s@.take(i as int), ',', s@[i as int]);
        }
        let c = s.get_char(i);
        if c == ',' {
            let t = trim_substring(s, start, i);
            proof {
                assert(split_on(s@.take(i + 1), ',') == sp.push(Seq::<char>::empty()));
                assert(split_on(s@.take(i + 1), ',').drop_last() =~~= sp);
                assert(sp.drop_last().push(sp.last()) =~= sp);
                assert(trimmed_nonempty(sp) == if trim_of(sp.last()).len() > 0 {
                    trimmed_nonempty(sp.drop_last()).push(trim_of(sp.last()))
                } else {
                    trimmed_nonempty(sp.drop_last())
                });
            }
            if t.unicode_len() > 0 {
                out.push(t);
                proof {
                    assert(str_views(out@) =~~= trimmed_nonempty(sp));
                }
            } else {
                proof {
                    assert(str_views(out@) =~~= trimmed_nonempty(sp));
                }
            }
            start = i + 1;
            proof {
                assert(s@.subrange(start as int, i + 1) =~= split_on(
                    s@.take(i + 1),
                    ',',
                ).last());
            }
        } else {
            proof {
                let spn = split_on(s@.take(i + 1), ',');
                assert(spn == sp.update(sp.len() - 1, sp.last().push(s@[i as int])));
                assert(spn.drop_last() =~~= sp.drop_last());
                assert(s@.subrange(start as int, i + 1) =~= sp.last().push(s@[i as int]));
            }
        }
        i = i + 1;
    }
    let ghost sp = split_on(s@, ',');
    proof {
        assert(s@.take(n as int) =~= s@);
        lemma_split_on_len(s@, ',');
        assert(sp.drop_last().push(sp.last()) =~= sp);
        assert(trimmed_nonempty(sp) == if trim_of(sp.last()).len() > 0 {
            trimmed_nonempty(sp.drop_last()).push(trim_of(sp.last()))
        } else {
            trimmed_nonempty(sp.drop_last())
        });
    }
    let t = trim_substring(s, start, n);
    if t.unicode_len() > 0 {
        out.push(t);
        proof {
            assert(str_views(out@) =~~= trimmed_nonempty(sp));
        }
    } else {
        proof {
            assert(str_views(out@) =~~= trimmed_nonempty(sp));
        }
    }
    out
}

/// Splits a comma-separated list of language names: each item trimmed of
/// surrounding whitespace, empty items dropped.
pub fn parse_languages(s: &str) -> (r: Vec<String>)
    ensures
        str_views(r@) == parse_items(s@),
{
    parse_list(s)
}

/// Splits a comma-separated list of owner names: each item trimmed of
/// surrounding whitespace, empty items dropped.
pub fn parse_usernames(s: &str) -> (r: Vec<String>)
    ensures
        str_views(r@) == parse_items(s@),
{
    parse_list(s)
}

/// Splits an `owner/name` reference at its separator; nothing when the
/// reference does not hold exactly one separator.
pub fn split_ref(s: &str) -> (r: Option<(String, String)>)
    ensures
        ({
            let parts = split_on(s@, '/');
            match r {
                Some(p) => parts.len() == 2 && p.0@ == parts[0] && p.1@ == parts[1],
                None => parts.len() != 2,
            }
        }),
{
    let n = s.unicode_len();
    let mut count: usize = 0;
    let mut first: usize = 0;
    let mut i: usize = 0;
    proof {
        assert(s@.take(0) =~= Seq::<char>::empty());
    }
    while i < n
        invariant
            n == s@.len(),
            i <= n,
            count <= i,
            count >= 1 ==> first < i,
            split_on(s@.take(i as int), '/').len() == count + 1,
            count >= 1 ==> s@[first as int] == '/' && split_on(s@.take(i as int), '/')[0]
                == s@.take(first as int),
            count == 1 ==> split_on(s@.take(i as int), '/')[1] == s@.subrange(
                first + 1,
                i as int,
            ),
            count == 0 ==> split_on(s@.take(i as int), '/')[0] == s@.take(i as int),
        decreases n - i,
    {
        let ghost sp = split_on(s@.take(i as int), '/');
        proof {
            assert(s@.take(i + 1) =~= s@.take(i as int).push(s@[i as int]));
            lemma_split_on_push(s@.take(i as int), '/', s@[i as int]);
        }
        let c = s.get_char(i);
        if c == '/' {
            proof {
                assert(split_on(s@.take(i + 1), '/') == sp.push(Seq::<char>::empty()));
                assert(s@.subrange(i + 1, i + 1) =~= Seq::<char>::empty());
            }
            if count == 0 {
                first = i;
                proof {
                    assert(split_on(s@.take(i + 1), '/')[0] == s@.take(first as int));
                }
            }
            count = count + 1;
        } else {
            proof {
                assert(split_on(s@.take(i + 1), '/') == sp.update(
                    sp.len() - 1,
                    sp.last().push(s@[i as int]),
                ));
                if count == 0 {
                    assert(split_on(s@.take(i + 1), '/')[0] =~= s@.take(i + 1));
                }
                if count == 1 {
                    assert(split_on(s@.take(i + 1), '/')[1] =~= s@.subrange(
                        first + 1,
                        i + 1,
                    ));
                }
            }
        }
        i = i + 1;
    }
    proof {
        assert(s@.take(n as int) =~= s@);
    }
    if count == 1 {
        let o = s.substring_char(0, first).to_owned();
        let nm = s.substring_char(first + 1, n).to_owned();
        proof {
            assert(s@.subrange(0, first as int) =~= s@.take(first as int));
        }
        Some((o, nm))
    } else {
        None
    }
}

/// Whether the two strings hold the same characters.
pub fn str_eq(a: &str, b: &str) -> (r: bool)
    ensures
        r == (a@ == b@),
{
    let n = a.unicode_len();
    if n != b.unicode_len() {
        return false;
    }
    let mut i: usize = 0;
    while i < n
        invariant
            n == a@.len(),
            n == b@.len(),
            i <= n,
            forall|k: int| 0 <= k < i ==> a@[k] == b@[k],
        decreases n - i,
    {
        if a.get_char(i) != b.get_char(i) {
            return false;
        }
        i = i + 1;
    }
    proof {
        assert(a@ =~= b@);
    }
    true
}

} // verus!
